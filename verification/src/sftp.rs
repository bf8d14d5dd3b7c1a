//! File transfer: how paths are resolved, how a transfer is split, what a
//! recursive removal does next, and what a listing shows.

use vstd::prelude::*;
use vstd::string::*;

use crate::errors::{Result, SshError};
use crate::paths::{find_last_part, last_part_at, strip_last_slashes, without_last_slashes};
use crate::text::{
    bytes_of, chars_of, decimal, exact_text, ends_with, has_suffix, in_order, join_with, joined2,
    joined3, lemma_split_on_add, lemma_split_on_one, lemma_text_le_total, lemma_text_le_transitive, lemma_views_push, push_decimal, same, split,
    split_on, string_of, text_le, views,
};

verus! {

/// How much is read at a time.
pub const TRANSFER_CHUNK: usize = 262144;

/// Downloads at or above this size (with a known size) are striped across
/// several concurrent file handles: one handle keeps a single read in flight,
/// so several multiply what a round-trip carries.
pub const PARALLEL_DOWNLOAD_MIN: u64 = 4194304;

pub const PARALLEL_DOWNLOAD_WORKERS: u64 = 6;

/// Max in-flight delete requests during a recursive remove.
pub const RM_CONCURRENCY: usize = 16;

/// A host-to-host copy pays a read *and* a write round-trip per chunk, so it
/// stripes earlier than a download: both sides pipeline.
pub const PARALLEL_COPY_MIN: u64 = 1048576;

pub const PARALLEL_COPY_WORKERS: u64 = 4;

/// What a transfer moved, and how long it took.
#[derive(Debug, Clone, Copy)]
pub struct SftpResult {
    pub bytes: usize,
    pub duration_ms: u128,
}

// ---------------------------------------------------------------------------
// Remote paths
// ---------------------------------------------------------------------------

/// The directory that holds a path, and the name it has there. Slashes at the
/// end do not count.
pub open spec fn parent_and_leaf(path: Seq<char>) -> (Seq<char>, Seq<char>) {
    let t = without_last_slashes(path);
    let at = last_part_at(t);
    if t.len() == 0 {
        ("/"@, Seq::empty())
    } else if at == 0 {
        ("."@, t)
    } else if at == 1 {
        ("/"@, t.skip(1))
    } else {
        (t.take(at - 1), t.skip(at))
    }
}

/// Split a POSIX remote path into `(parent, leaf)`. Trailing slashes are
/// trimmed first so `/tmp/d/` yields `("/tmp", "d")`.
pub fn split_parent(path: &str) -> (r: (String, String))
    ensures
        (r.0@, r.1@) == parent_and_leaf(path@),
{
    let t = strip_last_slashes(path);
    let v = chars_of(t.as_str());
    let n: usize = v.len();
    if n == 0 {
        let leaf = String::new();
        assert(leaf@ =~= Seq::<char>::empty());
        return ("/".to_owned(), leaf);
    }
    let at: usize = find_last_part(&v);
    let leaf = string_of(&v, at, n);
    assert(leaf@ =~= t@.skip(at as int));
    if at == 0 {
        assert(leaf@ =~= t@);
        (".".to_owned(), leaf)
    } else if at == 1 {
        ("/".to_owned(), leaf)
    } else {
        let parent = string_of(&v, 0, at - 1);
        assert(parent@ =~= t@.take(at - 1));
        (parent, leaf)
    }
}

/// A name joined to a directory.
pub open spec fn joined_remote(base: Seq<char>, leaf: Seq<char>) -> Seq<char> {
    if leaf.len() == 0 {
        base
    } else {
        child_path(base, leaf)
    }
}

/// The path of an entry of a directory.
pub open spec fn child_path(dir: Seq<char>, name: Seq<char>) -> Seq<char> {
    if has_suffix(dir, "/"@) {
        dir + name
    } else {
        dir + "/"@ + name
    }
}

fn child_of(dir: &str, name: &str) -> (r: String)
    ensures
        r@ == child_path(dir@, name@),
{
    if ends_with(dir, "/") {
        joined2(dir, name)
    } else {
        joined3(dir, "/", name)
    }
}

pub fn join_remote(base: &str, leaf: &str) -> (r: String)
    ensures
        r@ == joined_remote(base@, leaf@),
{
    if leaf.is_empty() {
        base.to_owned()
    } else {
        child_of(base, leaf)
    }
}

/// What a path points at, from what the server answered: for the path itself,
/// or, where it does not exist yet, for the directory that will hold it. There
/// is no answer where the server gave neither: a guard must not be skipped
/// because a lookup failed.
pub fn resolve_path(path: &str, direct: Option<&str>, parent: Option<&str>) -> (r: Option<String>)
    ensures
        match direct {
            Some(p) => r is Some && r->0@ == p@,
            None => match parent {
                Some(base) => r is Some && r->0@ == joined_remote(base@, parent_and_leaf(path@).1),
                None => r is None,
            },
        },
{
    match direct {
        Some(p) => Some(p.to_owned()),
        None => match parent {
            Some(base) => {
                let (_, leaf) = split_parent(path);
                Some(join_remote(base, leaf.as_str()))
            },
            None => None,
        },
    }
}

/// Where the bytes of a transfer go before they are all there.
pub open spec fn partial_text(remote: Seq<char>) -> Seq<char> {
    remote + ".partial"@
}

/// A transfer streams into this path and is renamed on success, so a network
/// blip cannot leave a half-written file at the final path.
pub fn partial_path(remote: &str) -> (r: String)
    ensures
        r@ == partial_text(remote@),
{
    joined2(remote, ".partial")
}

pub open spec fn timed_out_text(label: Seq<char>, secs: nat) -> Seq<char> {
    "sftp "@ + label + " timed out after "@ + decimal(secs) + "s"@
}

/// What a request that took too long is told.
pub fn timed_out(label: &str, secs: u64) -> (e: SshError)
    ensures
        e is Other,
        e->Other_0@ == timed_out_text(label@, secs as nat),
{
    let mut m = joined3("sftp ", label, " timed out after ");
    push_decimal(&mut m, secs);
    m.push_str("s");
    SshError::Other(m)
}

// ---------------------------------------------------------------------------
// Stripes
// ---------------------------------------------------------------------------

/// A part of a file that one pair of handles moves.
#[derive(Debug, Clone, Copy, PartialEq, Eq)]
pub struct Stripe {
    pub offset: u64,
    pub len: u64,
}

pub open spec fn ceil_div(a: nat, b: nat) -> nat {
    if a % b == 0 {
        a / b
    } else {
        a / b + 1
    }
}

/// How many handles share a file: one for each `min` bytes, at most `most`.
pub open spec fn workers_for(size: nat, min: nat, most: nat) -> nat {
    let wanted = ceil_div(size, min);
    if wanted < 1 {
        1
    } else if wanted < most {
        wanted
    } else {
        most
    }
}

/// The stripes from `offset` to the end of the file, each of `step` bytes but
/// for the last.
pub open spec fn cut_from(offset: nat, size: nat, step: nat) -> Seq<(nat, nat)>
    decreases size - offset,
{
    if offset >= size || step == 0 {
        Seq::empty()
    } else {
        let len = if step < size - offset {
            step
        } else {
            (size - offset) as nat
        };
        seq![(offset, len)] + cut_from(offset + len, size, step)
    }
}

/// The stripes of a file.
pub open spec fn stripes_of(size: nat, min: nat, most: nat) -> Seq<(nat, nat)> {
    cut_from(0, size, ceil_div(size, workers_for(size, min, most)))
}

pub open spec fn stripe_views(s: Seq<Stripe>) -> Seq<(nat, nat)> {
    Seq::new(s.len(), |i: int| (s[i].offset as nat, s[i].len as nat))
}

fn div_up(a: u64, b: u64) -> (r: u64)
    requires
        b > 0,
    ensures
        r == ceil_div(a as nat, b as nat),
        a > 0 ==> r > 0,
{
    proof {
        vstd::arithmetic::div_mod::lemma_fundamental_div_mod(a as int, b as int);
        assert(b * (a / b) + a % b == a);
        if a > 0 && a % b == 0 {
            assert(a / b > 0) by (nonlinear_arith)
                requires
                    b * (a / b) == a,
                    a > 0,
                    b > 0,
            ;
        }
        if a % b != 0 {
            assert(b > 1) by (nonlinear_arith)
                requires
                    a % b != 0,
                    b > 0,
            ;
            assert(a / b < u64::MAX) by (nonlinear_arith)
                requires
                    b * (a / b) + a % b == a,
                    a % b > 0,
                    b > 1,
            ;
        }
    }
    if a % b == 0 {
        a / b
    } else {
        a / b + 1
    }
}

/// Cuts a file into stripes.
fn stripes(size: u64, min: u64, most: u64) -> (r: Vec<Stripe>)
    requires
        min > 0,
        most > 0,
    ensures
        stripe_views(r@) == stripes_of(size as nat, min as nat, most as nat),
{
    let wanted: u64 = div_up(size, min);
    let workers: u64 = if wanted < 1 {
        1
    } else if wanted < most {
        wanted
    } else {
        most
    };
    let step: u64 = div_up(size, workers);
    let mut out: Vec<Stripe> = Vec::new();
    let mut offset: u64 = 0;
    let ghost all = stripes_of(size as nat, min as nat, most as nat);
    assert(stripe_views(out@) + cut_from(0, size as nat, step as nat) =~= all);
    while offset < size
        invariant
            offset <= size,
            size > 0 ==> step > 0,
            stripe_views(out@) + cut_from(offset as nat, size as nat, step as nat) == all,
        decreases size - offset,
    {
        let left: u64 = size - offset;
        let len: u64 = if step < left {
            step
        } else {
            left
        };
        let ghost before = stripe_views(out@);
        out.push(Stripe { offset, len });
        proof {
            let rest = cut_from((offset + len) as nat, size as nat, step as nat);
            assert(stripe_views(out@) =~= before.push((offset as nat, len as nat)));
            assert(before + (seq![(offset as nat, len as nat)] + rest) =~= stripe_views(out@)
                + rest);
        }
        offset = offset + len;
    }
    assert(stripe_views(out@) =~= all);
    out
}

/// The stripes of a large download.
pub fn download_stripes(size: u64) -> (r: Vec<Stripe>)
    ensures
        stripe_views(r@) == stripes_of(
            size as nat,
            PARALLEL_DOWNLOAD_MIN as nat,
            PARALLEL_DOWNLOAD_WORKERS as nat,
        ),
{
    stripes(size, PARALLEL_DOWNLOAD_MIN, PARALLEL_DOWNLOAD_WORKERS)
}

/// The stripes of a large copy.
pub fn copy_stripes(size: u64) -> (r: Vec<Stripe>)
    ensures
        stripe_views(r@) == stripes_of(
            size as nat,
            PARALLEL_COPY_MIN as nat,
            PARALLEL_COPY_WORKERS as nat,
        ),
{
    stripes(size, PARALLEL_COPY_MIN, PARALLEL_COPY_WORKERS)
}

/// Each stripe begins where the one before it ends, the first where the file
/// begins, and the last ends where the file ends.
pub open spec fn is_partition(s: Seq<(nat, nat)>, from: nat, size: nat) -> bool {
    &&& s.len() == 0 ==> from >= size
    &&& s.len() > 0 ==> (s[0]).0 == from && (s.last()).0 + (s.last()).1 == size
    &&& forall|i: int| 0 <= i < s.len() ==> (#[trigger] s[i]).1 > 0
    &&& forall|i: int| 0 < i < s.len() ==> (#[trigger] s[i]).0 == (s[i - 1]).0 + (s[i - 1]).1
}

proof fn lemma_cut(offset: nat, size: nat, step: nat)
    requires
        step > 0,
    ensures
        is_partition(cut_from(offset, size, step), offset, size),
        cut_from(offset, size, step).len() > 0 ==> (cut_from(offset, size, step).len() - 1) * step
            < size - offset,
    decreases size - offset,
{
    if offset < size {
        let len = if step < size - offset {
            step
        } else {
            (size - offset) as nat
        };
        let rest = cut_from(offset + len, size, step);
        let s = cut_from(offset, size, step);
        lemma_cut(offset + len, size, step);
        assert(s.len() == rest.len() + 1);
        assert forall|i: int| 0 < i < s.len() implies (#[trigger] s[i]).0 == (s[i - 1]).0 + (s[i
            - 1]).1 by {
            assert(s[i] == rest[i - 1]);
            if i > 1 {
                assert(s[i - 1] == rest[i - 2]);
            }
        }
        assert forall|i: int| 0 <= i < s.len() implies (#[trigger] s[i]).1 > 0 by {
            if i > 0 {
                assert(s[i] == rest[i - 1]);
            }
        }
        if rest.len() > 0 {
            assert(s.last() == rest.last());
            assert((s.len() - 1) * step == (rest.len() - 1) * step + step) by (nonlinear_arith)
                requires
                    s.len() == rest.len() + 1,
            ;
        } else {
            assert((s.len() - 1) * step == 0) by (nonlinear_arith)
                requires
                    s.len() == 1,
            ;
        }
    }
}

/// The stripes of a file never overlap, leave nothing out, and are no more than
/// the handles that share it.
pub proof fn law_stripes_partition_the_file(size: nat, min: nat, most: nat)
    requires
        size > 0,
        min > 0,
        most > 0,
    ensures
        is_partition(stripes_of(size, min, most), 0, size),
        1 <= stripes_of(size, min, most).len() <= workers_for(size, min, most) <= most,
{
    let workers = workers_for(size, min, most);
    let step = ceil_div(size, workers);
    vstd::arithmetic::div_mod::lemma_fundamental_div_mod(size as int, workers as int);
    assert(step * workers >= size && step > 0) by (nonlinear_arith)
        requires
            workers > 0,
            size > 0,
            workers * (size / workers) + size % workers == size,
            0 <= size % workers < workers,
            step == (if size % workers == 0 {
                size / workers
            } else {
                size / workers + 1
            }),
    ;
    lemma_cut(0, size, step);
    let n = stripes_of(size, min, most).len();
    assert(n <= workers) by (nonlinear_arith)
        requires
            n > 0,
            (n - 1) * step < size,
            step * workers >= size,
            step > 0,
    ;
}

/// Every byte of a partitioned file lies in a stripe.
pub proof fn law_every_byte_is_in_a_stripe(s: Seq<(nat, nat)>, size: nat, b: nat)
    requires
        is_partition(s, 0, size),
        b < size,
    ensures
        exists|i: int| 0 <= i < s.len() && (#[trigger] s[i]).0 <= b < s[i].0 + s[i].1,
{
    let k = lemma_byte_upto(s, size, b, s.len() - 1);
}

proof fn lemma_byte_upto(s: Seq<(nat, nat)>, size: nat, b: nat, last: int) -> (k: int)
    requires
        is_partition(s, 0, size),
        0 <= last < s.len(),
        b < (s[last]).0 + (s[last]).1,
    ensures
        0 <= k < s.len(),
        (s[k]).0 <= b < (s[k]).0 + (s[k]).1,
    decreases last,
{
    if (s[last]).0 <= b {
        last
    } else {
        lemma_byte_upto(s, size, b, last - 1)
    }
}

/// How far the transfer of a stripe has come.
#[derive(Debug, Clone, Copy)]
pub struct StripeRun {
    offset: u64,
    len: u64,
    left: u64,
}

impl StripeRun {
    #[verifier::type_invariant]
    spec fn wf(self) -> bool {
        &&& self.left <= self.len
        &&& self.offset + self.len <= u64::MAX
    }

    /// Where the next byte is read.
    pub closed spec fn position(self) -> int {
        self.offset + (self.len - self.left)
    }

    /// Where the stripe ends.
    pub closed spec fn end(self) -> int {
        self.offset + self.len
    }

    pub fn new(stripe: Stripe) -> (r: Self)
        requires
            stripe.offset + stripe.len <= u64::MAX,
        ensures
            r.position() == stripe.offset,
            r.end() == stripe.offset + stripe.len,
    {
        StripeRun { offset: stripe.offset, len: stripe.len, left: stripe.len }
    }

    /// How much to read next; nothing when the stripe is done.
    pub fn want(&self) -> (n: usize)
        ensures
            n == (if self.end() - self.position() < TRANSFER_CHUNK {
                self.end() - self.position()
            } else {
                TRANSFER_CHUNK as int
            }),
    {
        proof {
            use_type_invariant(self);
        }
        if self.left < TRANSFER_CHUNK as u64 {
            self.left as usize
        } else {
            TRANSFER_CHUNK
        }
    }

    /// `n` bytes were read. A stripe that ends early is an error: the file is
    /// shorter than it said.
    pub fn advance(self, n: usize, verb: &str) -> (r: Result<Self>)
        requires
            n <= self.end() - self.position(),
        ensures
            match r {
                Ok(s) => n > 0 && s.position() == self.position() + n && s.end() == self.end(),
                Err(e) => n == 0 && e is Other && e->Other_0@ == short_read_text(
                    verb@,
                    self.position() as nat,
                ),
            },
    {
        proof {
            use_type_invariant(&self);
        }
        if n == 0 {
            let mut m = joined3("sftp ", verb, ": short read at offset ");
            push_decimal(&mut m, self.offset + (self.len - self.left));
            return Err(SshError::Other(m));
        }
        Ok(StripeRun { offset: self.offset, len: self.len, left: self.left - n as u64 })
    }
}

pub open spec fn short_read_text(verb: Seq<char>, at: nat) -> Seq<char> {
    "sftp "@ + verb + ": short read at offset "@ + decimal(at)
}

// ---------------------------------------------------------------------------
// Downloads
// ---------------------------------------------------------------------------

/// How a download is done.
#[derive(Debug, Clone, Copy, PartialEq, Eq, Structural)]
pub enum DownloadPlan {
    /// To disk, by several handles; the file has this size.
    Striped(u64),
    /// To disk, by one handle.
    Stream,
    /// Not at all: the file has this size, and is too large to be returned.
    TooLarge(u64),
    /// Into the answer.
    Inline,
}

/// How a file is downloaded, from what the server said of its size.
pub fn download_plan(to_disk: bool, size: Option<u64>, inline_max: usize) -> (r: DownloadPlan)
    ensures
        r == (if to_disk {
            if size is Some && size->0 >= PARALLEL_DOWNLOAD_MIN {
                DownloadPlan::Striped(size->0)
            } else {
                DownloadPlan::Stream
            }
        } else {
            if size is Some && size->0 > inline_max {
                DownloadPlan::TooLarge(size->0)
            } else {
                DownloadPlan::Inline
            }
        }),
{
    match size {
        Some(sz) => {
            if to_disk {
                if sz >= PARALLEL_DOWNLOAD_MIN {
                    DownloadPlan::Striped(sz)
                } else {
                    DownloadPlan::Stream
                }
            } else if sz > inline_max as u64 {
                DownloadPlan::TooLarge(sz)
            } else {
                DownloadPlan::Inline
            }
        },
        None => {
            if to_disk {
                DownloadPlan::Stream
            } else {
                DownloadPlan::Inline
            }
        },
    }
}

/// A file that is read into the answer. At most one byte more than fits is
/// read, whatever the server said of the size.
#[derive(Debug)]
pub struct InlineRead {
    max: usize,
    content: Vec<u8>,
}

impl InlineRead {
    #[verifier::type_invariant]
    spec fn wf(self) -> bool {
        &&& self.max < usize::MAX
        &&& self.content@.len() <= self.max + 1
    }

    /// What was read so far.
    pub closed spec fn content(self) -> Seq<u8> {
        self.content@
    }

    /// The most that is returned.
    pub closed spec fn max(self) -> nat {
        self.max as nat
    }

    pub fn new(inline_max: usize) -> (r: Self)
        requires
            inline_max < usize::MAX,
        ensures
            r.content() == Seq::<u8>::empty(),
            r.max() == inline_max,
    {
        InlineRead { max: inline_max, content: Vec::new() }
    }

    /// How much to read next; nothing once it is known not to fit.
    pub fn want(&self) -> (n: usize)
        ensures
            self.content().len() <= self.max() + 1,
            n == (if self.max() + 1 - self.content().len() < TRANSFER_CHUNK {
                self.max() + 1 - self.content().len()
            } else {
                TRANSFER_CHUNK as int
            }),
    {
        proof {
            use_type_invariant(self);
        }
        let room: usize = self.max + 1 - self.content.len();
        if room < TRANSFER_CHUNK {
            room
        } else {
            TRANSFER_CHUNK
        }
    }

    /// These bytes were read.
    pub fn push(self, data: &[u8]) -> (r: Self)
        requires
            self.content().len() + data@.len() <= self.max() + 1,
        ensures
            r.content() == self.content() + data@,
            r.max() == self.max(),
    {
        proof {
            use_type_invariant(&self);
        }
        let mut content = self.content;
        content.extend_from_slice(data);
        InlineRead { max: self.max, content }
    }

    /// How much was read, and the content where it fits.
    pub fn finish(self) -> (r: (usize, Option<Vec<u8>>))
        ensures
            r.0 == self.content().len(),
            match r.1 {
                Some(c) => self.content().len() <= self.max() && c@ == self.content(),
                None => self.content().len() > self.max(),
            },
    {
        let total: usize = self.content.len();
        if total > self.max {
            (total, None)
        } else {
            (total, Some(self.content))
        }
    }
}

// ---------------------------------------------------------------------------
// Copies
// ---------------------------------------------------------------------------

/// Whether a copy is striped.
pub fn copy_is_striped(size: Option<u64>) -> (r: bool)
    ensures
        r == (size is Some && size->0 >= PARALLEL_COPY_MIN),
{
    match size {
        Some(s) => s >= PARALLEL_COPY_MIN,
        None => false,
    }
}

/// The mode of a copied file: the one that was asked for, else the source's. A
/// copied script that lost its exec bit is a silent failure at the far end.
pub fn copy_mode(pinned: Option<u32>, source: Option<u32>) -> (r: u32)
    ensures
        r == (match pinned {
            Some(m) => m,
            None => match source {
                Some(m) => m,
                None => 0o644,
            },
        }),
{
    match pinned {
        Some(m) => m,
        None => match source {
            Some(m) => m,
            None => 0o644,
        },
    }
}

// ---------------------------------------------------------------------------
// Directories
// ---------------------------------------------------------------------------

/// The parts of a path that are not empty, in order.
pub open spec fn non_empty(parts: Seq<Seq<char>>) -> Seq<Seq<char>>
    decreases parts.len(),
{
    if parts.len() == 0 {
        Seq::empty()
    } else {
        let before = non_empty(parts.drop_last());
        if parts.last().len() == 0 {
            before
        } else {
            before.push(parts.last())
        }
    }
}

/// The directories that `mkdir -p` creates, from the outermost to the path
/// itself.
pub open spec fn directories_of(path: Seq<char>) -> Seq<Seq<char>> {
    let parts = non_empty(split_on(path, '/'));
    Seq::new(
        parts.len(),
        |i: int|
            (if path.len() > 0 && path[0] == '/' {
                seq!['/']
            } else {
                Seq::empty()
            }) + join_with(parts.take(i + 1), '/'),
    )
}

fn filled(parts: Vec<String>) -> (r: Vec<String>)
    ensures
        views(r@) == non_empty(views(parts@)),
{
    let ghost all = views(parts@);
    let mut out: Vec<String> = Vec::new();
    let mut i: usize = 0;
    assert(views(out@) =~= non_empty(all.take(0)));
    while i < parts.len()
        invariant
            i <= parts@.len(),
            all == views(parts@),
            views(out@) == non_empty(all.take(i as int)),
        decreases parts@.len() - i,
    {
        proof {
            assert(all.take(i + 1).drop_last() =~= all.take(i as int));
            assert(all.take(i + 1).last() == parts@[i as int]@);
            lemma_views_push(out@, parts@[i as int]);
        }
        if !parts[i].as_str().is_empty() {
            out.push(parts[i].clone());
        }
        i = i + 1;
    }
    assert(all.take(i as int) =~= all);
    out
}

/// The directories to create, in the order to create them. No pre-flight
/// lookup: each is created, and one that fails is looked up once.
pub fn mkdir_paths(path: &str, parents: bool) -> (r: Vec<String>)
    ensures
        views(r@) == (if parents {
            directories_of(path@)
        } else {
            seq![path@]
        }),
{
    let mut out: Vec<String> = Vec::new();
    if !parents {
        out.push(path.to_owned());
        assert(views(out@) =~= seq![path@]);
        return out;
    }
    let parts = filled(split(path, '/'));
    let v = chars_of(path);
    let absolute: bool = v.len() > 0 && v[0] == '/';
    let ghost segs = views(parts@);
    let ghost root = if absolute {
        seq!['/']
    } else {
        Seq::<char>::empty()
    };
    let mut acc = String::new();
    let mut i: usize = 0;
    while i < parts.len()
        invariant
            i <= parts@.len(),
            segs == views(parts@),
            segs == non_empty(split_on(path@, '/')),
            absolute == (path@.len() > 0 && path@[0] == '/'),
            root == (if absolute {
                seq!['/']
            } else {
                Seq::<char>::empty()
            }),
            i == 0 ==> acc@.len() == 0,
            i > 0 ==> acc@ == root + join_with(segs.take(i as int), '/'),
            views(out@) == directories_of(path@).take(i as int),
        decreases parts@.len() - i,
    {
        let ghost before = acc@;
        if absolute || i > 0 {
            acc.push('/');
        }
        acc.push_str(parts[i].as_str());
        proof {
            let now = segs.take(i + 1);
            assert(now.drop_last() =~= segs.take(i as int));
            assert(now.last() == parts@[i as int]@);
            if i == 0 {
                assert(now.len() == 1 && now[0] == parts@[0]@);
                assert(acc@ =~= root + join_with(now, '/'));
            } else {
                assert(acc@ =~= root + (join_with(now.drop_last(), '/').push('/') + now.last()));
            }
        }
        let dir = acc.clone();
        proof {
            lemma_views_push(out@, dir);
            let all = directories_of(path@);
            assert(all.take(i + 1) =~= all.take(i as int).push(all[i as int]));
        }
        out.push(dir);
        i = i + 1;
    }
    assert(views(out@) =~= directories_of(path@));
    out
}

/// Whether a directory that could not be created stops `mkdir`. With parents,
/// one that is there already does not.
pub fn mkdir_stops(parents: bool, is_there: bool) -> (r: bool)
    ensures
        r == !(parents && is_there),
{
    !(parents && is_there)
}

// ---------------------------------------------------------------------------
// Kinds of entries
// ---------------------------------------------------------------------------

/// A mode that has the bit of a directory.
pub open spec fn has_dir_bit(mode: Option<u32>) -> bool {
    match mode {
        Some(m) => m & 0x4000 == 0x4000,
        None => false,
    }
}

/// A mode that has the bits of a symlink.
pub open spec fn has_link_bits(mode: Option<u32>) -> bool {
    match mode {
        Some(m) => m & 0xA000 == 0xA000,
        None => false,
    }
}

/// A mode that has the bit of a regular file.
pub open spec fn has_file_bit(mode: Option<u32>) -> bool {
    match mode {
        Some(m) => m & 0x8000 == 0x8000,
        None => false,
    }
}

/// `russh_sftp::protocol::FileAttributes::is_dir`: attributes are those of a
/// directory where their mode has all bits of `0x4000`; without a mode they are
/// not.
#[verifier::external_body]
fn attributes_are_dir(mode: Option<u32>) -> (r: bool)
    ensures
        r == has_dir_bit(mode),
{
    russh_sftp::protocol::FileAttributes { permissions: mode, ..Default::default() }.is_dir()
}

/// `russh_sftp::protocol::FileAttributes::is_symlink`: attributes are those of a
/// symlink where their mode has all bits of `0xA000`; without a mode they are
/// not.
#[verifier::external_body]
fn attributes_are_symlink(mode: Option<u32>) -> (r: bool)
    ensures
        r == has_link_bits(mode),
{
    russh_sftp::protocol::FileAttributes { permissions: mode, ..Default::default() }.is_symlink()
}

/// `russh_sftp::protocol::FileAttributes::is_regular`: attributes are those of a
/// regular file where their mode has all bits of `0x8000`; without a mode they
/// are not.
#[verifier::external_body]
fn attributes_are_regular(mode: Option<u32>) -> (r: bool)
    ensures
        r == has_file_bit(mode),
{
    russh_sftp::protocol::FileAttributes { permissions: mode, ..Default::default() }.is_regular()
}

/// The word for what an entry is.
pub open spec fn kind_text(mode: Option<u32>) -> Seq<char> {
    if has_dir_bit(mode) {
        "dir"@
    } else if has_link_bits(mode) {
        "link"@
    } else if has_file_bit(mode) {
        "file"@
    } else {
        "other"@
    }
}

/// The word for what an entry is.
pub fn kind_of(mode: Option<u32>) -> (r: &'static str)
    ensures
        r@ == kind_text(mode),
{
    if attributes_are_dir(mode) {
        "dir"
    } else if attributes_are_symlink(mode) {
        "link"
    } else if attributes_are_regular(mode) {
        "file"
    } else {
        "other"
    }
}

/// A link is never taken for the directory that it may point at.
pub proof fn law_link_is_no_directory(m: u32)
    requires
        m & 0xF000 == 0xA000,
    ensures
        !has_dir_bit(Some(m)),
        kind_text(Some(m)) == "link"@,
{
    assert(m & 0x4000 != 0x4000 && m & 0xA000 == 0xA000) by (bit_vector)
        requires
            m & 0xF000 == 0xA000,
    ;
}

// ---------------------------------------------------------------------------
// Removal
// ---------------------------------------------------------------------------

/// How a path is removed.
#[derive(Debug, Clone, Copy, PartialEq, Eq, Structural)]
pub enum RemovePlan {
    /// The entry itself.
    Entry,
    /// The directory and what is under it.
    Tree,
}

pub open spec fn link_refused_text(path: Seq<char>) -> Seq<char> {
    path
        + " is a symlink; refusing recursive delete because it would delete the link target's tree, not the link. Re-run with recursive=false to remove the symlink itself."@
}

pub open spec fn directory_refused_text(path: Seq<char>) -> Seq<char> {
    path + " is a directory; pass recursive=true"@
}

/// How a path is removed, from its own mode: a link is looked at itself, never
/// at what it points at.
pub fn remove_plan(path: &str, mode: Option<u32>, recursive: bool) -> (r: Result<RemovePlan>)
    ensures
        match r {
            Ok(RemovePlan::Tree) => !has_link_bits(mode) && has_dir_bit(mode) && recursive,
            Ok(RemovePlan::Entry) => if has_link_bits(mode) {
                !recursive
            } else {
                !has_dir_bit(mode)
            },
            Err(e) => e is Other && (if has_link_bits(mode) {
                recursive && e->Other_0@ == link_refused_text(path@)
            } else {
                has_dir_bit(mode) && !recursive && e->Other_0@ == directory_refused_text(path@)
            }),
        },
{
    if attributes_are_symlink(mode) {
        if recursive {
            return Err(
                SshError::Other(
                    joined2(
                        path,
                        " is a symlink; refusing recursive delete because it would delete the link target's tree, not the link. Re-run with recursive=false to remove the symlink itself.",
                    ),
                ),
            );
        }
        return Ok(RemovePlan::Entry);
    }
    if attributes_are_dir(mode) {
        if !recursive {
            return Err(
                SshError::Other(joined2(path, " is a directory; pass recursive=true")),
            );
        }
        Ok(RemovePlan::Tree)
    } else {
        Ok(RemovePlan::Entry)
    }
}

/// An entry that a directory was listed with.
#[derive(Debug, Clone)]
pub struct DirEntry {
    pub name: String,
    /// The mode of the entry itself, where the server gave one.
    pub mode: Option<u32>,
}

#[verifier::ext_equal]
pub struct DirEntryView {
    pub name: Seq<char>,
    pub mode: Option<u32>,
}

impl View for DirEntry {
    type V = DirEntryView;

    open spec fn view(&self) -> DirEntryView {
        DirEntryView { name: self.name@, mode: self.mode }
    }
}

pub open spec fn entry_views(s: Seq<DirEntry>) -> Seq<DirEntryView> {
    Seq::new(s.len(), |i: int| s[i]@)
}

/// An entry that stands for something under the directory.
pub open spec fn is_child(e: DirEntryView) -> bool {
    e.name != "."@ && e.name != ".."@
}

/// The directories under `dir`, in the order they were listed.
pub open spec fn subdirectories(dir: Seq<char>, entries: Seq<DirEntryView>) -> Seq<Seq<char>>
    decreases entries.len(),
{
    if entries.len() == 0 {
        Seq::empty()
    } else {
        let before = subdirectories(dir, entries.drop_last());
        let e = entries.last();
        if is_child(e) && has_dir_bit(e.mode) {
            before.push(child_path(dir, e.name))
        } else {
            before
        }
    }
}

/// What else is under `dir`, in the order it was listed.
pub open spec fn leaves(dir: Seq<char>, entries: Seq<DirEntryView>) -> Seq<Seq<char>>
    decreases entries.len(),
{
    if entries.len() == 0 {
        Seq::empty()
    } else {
        let before = leaves(dir, entries.drop_last());
        let e = entries.last();
        if is_child(e) && !has_dir_bit(e.mode) {
            before.push(child_path(dir, e.name))
        } else {
            before
        }
    }
}

/// What a recursive removal does next.
#[derive(Debug)]
pub enum RemoveAction {
    /// List this directory and hand the entries to [`RemoveWalk::listed`].
    List(String),
    /// Remove this directory: nothing is left in it.
    RemoveDir(String),
    Done,
}

#[verifier::ext_equal]
pub struct WalkView {
    /// The directories that are still to be removed, the next one last, and
    /// whether each was listed.
    pub stack: Seq<(Seq<char>, bool)>,
    pub removed: nat,
}

/// A recursive removal: depth first, without recursion.
#[derive(Debug)]
pub struct RemoveWalk {
    stack: Vec<(String, bool)>,
    removed: u64,
}

impl View for RemoveWalk {
    type V = WalkView;

    closed spec fn view(&self) -> WalkView {
        WalkView {
            stack: Seq::new(self.stack@.len(), |i: int| ((self.stack@[i]).0@, (self.stack@[i]).1)),
            removed: self.removed as nat,
        }
    }
}

/// What is to be done next.
pub open spec fn walk_action(s: WalkView) -> Option<(Seq<char>, bool)> {
    if s.stack.len() == 0 {
        None
    } else {
        Some(s.stack.last())
    }
}

/// The walk once the next thing to do was taken from it.
pub open spec fn walk_taken(s: WalkView) -> WalkView {
    if s.stack.len() == 0 {
        s
    } else if (s.stack.last()).1 {
        WalkView { stack: s.stack.drop_last(), ..s }
    } else {
        WalkView { stack: s.stack.drop_last().push(((s.stack.last()).0, true)), ..s }
    }
}

/// The directories to be listed later.
pub open spec fn to_list(dirs: Seq<Seq<char>>) -> Seq<(Seq<char>, bool)> {
    Seq::new(dirs.len(), |i: int| (dirs[i], false))
}

impl RemoveWalk {
    pub fn new(path: &str) -> (r: Self)
        ensures
            r@ == (WalkView { stack: seq![(path@, false)], removed: 0 }),
    {
        let mut stack: Vec<(String, bool)> = Vec::new();
        stack.push((path.to_owned(), false));
        let r = RemoveWalk { stack, removed: 0 };
        assert(r@.stack =~= seq![(path@, false)]);
        r
    }

    pub fn next(&mut self) -> (r: RemoveAction)
        ensures
            final(self)@ == walk_taken(old(self)@),
            match r {
                RemoveAction::Done => walk_action(old(self)@) is None,
                RemoveAction::List(dir) => walk_action(old(self)@) == Some((dir@, false)),
                RemoveAction::RemoveDir(dir) => walk_action(old(self)@) == Some((dir@, true)),
            },
    {
        let ghost before = self@;
        match self.stack.pop() {
            None => RemoveAction::Done,
            Some(top) => {
                proof {
                    assert(self@.stack =~= before.stack.drop_last());
                    assert(before.stack.last() == (top.0@, top.1));
                }
                let (dir, listed) = top;
                if listed {
                    RemoveAction::RemoveDir(dir)
                } else {
                    self.stack.push((dir.clone(), true));
                    assert(self@.stack =~= before.stack.drop_last().push((dir@, true)));
                    RemoveAction::List(dir)
                }
            },
        }
    }

    /// A directory was listed: what in it can be removed at once. The
    /// directories in it are walked before it is removed itself.
    pub fn listed(&mut self, dir: &str, entries: &Vec<DirEntry>) -> (files: Vec<String>)
        ensures
            views(files@) == leaves(dir@, entry_views(entries@)),
            final(self)@.stack == old(self)@.stack + to_list(
                subdirectories(dir@, entry_views(entries@)),
            ),
            final(self)@.removed == old(self)@.removed,
    {
        let ghost all = entry_views(entries@);
        let ghost base = self@.stack;
        let mut files: Vec<String> = Vec::new();
        let mut i: usize = 0;
        proof {
            assert(views(files@) =~= leaves(dir@, all.take(0)));
            assert(self@.stack =~= base + to_list(subdirectories(dir@, all.take(0))));
        }
        while i < entries.len()
            invariant
                i <= entries@.len(),
                all == entry_views(entries@),
                base == old(self)@.stack,
                self.removed == old(self).removed,
                views(files@) == leaves(dir@, all.take(i as int)),
                self@.stack == base + to_list(subdirectories(dir@, all.take(i as int))),
            decreases entries@.len() - i,
        {
            let ghost now = self@.stack;
            let ghost dirs = subdirectories(dir@, all.take(i as int));
            proof {
                assert(all.take(i + 1).drop_last() =~= all.take(i as int));
                assert(all.take(i + 1).last() == entries@[i as int]@);
            }
            let name = entries[i].name.as_str();
            if !same(name, ".") && !same(name, "..") {
                let child = child_of(dir, name);
                if attributes_are_dir(entries[i].mode) {
                    self.stack.push((child, false));
                    proof {
                        assert(self@.stack =~= now.push((child@, false)));
                        assert(to_list(dirs.push(child@)) =~= to_list(dirs).push((child@, false)));
                        assert(self@.stack =~= base + to_list(dirs.push(child@)));
                    }
                } else {
                    proof {
                        lemma_views_push(files@, child);
                    }
                    files.push(child);
                }
            }
            i = i + 1;
        }
        assert(all.take(i as int) =~= all);
        files
    }

    /// Something was removed.
    pub fn count(&mut self)
        requires
            old(self)@.removed < u64::MAX,
        ensures
            final(self)@ == (WalkView { removed: old(self)@.removed + 1, ..old(self)@ }),
    {
        let ghost before = self@;
        self.removed = self.removed + 1;
        assert(self@.stack =~= before.stack);
    }

    pub fn removed(&self) -> (n: u64)
        ensures
            n == self@.removed,
    {
        self.removed
    }
}

/// One round of a walk over a tree in which `ls` says what each directory
/// holds: the walk after it, and what was removed in it.
pub open spec fn walk_round(s: WalkView, ls: spec_fn(Seq<char>) -> Seq<DirEntryView>) -> (
    WalkView,
    Seq<Seq<char>>,
) {
    match walk_action(s) {
        None => (s, Seq::empty()),
        Some((dir, true)) => (walk_taken(s), seq![dir]),
        Some((dir, false)) => (
            WalkView {
                stack: walk_taken(s).stack + to_list(subdirectories(dir, ls(dir))),
                ..s
            },
            leaves(dir, ls(dir)),
        ),
    }
}

/// What is under a directory, directly.
pub open spec fn is_child_of(
    ls: spec_fn(Seq<char>) -> Seq<DirEntryView>,
    dir: Seq<char>,
    path: Seq<char>,
) -> bool {
    exists|i: int|
        0 <= i < ls(dir).len() && is_child(#[trigger] ls(dir)[i]) && path == child_path(
            dir,
            ls(dir)[i].name,
        )
}

/// Everything directly under a listed directory was removed, or stands above it
/// on the stack and so is removed before it.
pub open spec fn children_go_first(
    s: WalkView,
    ls: spec_fn(Seq<char>) -> Seq<DirEntryView>,
    gone: Seq<Seq<char>>,
) -> bool {
    forall|i: int, path: Seq<char>|
        #![trigger s.stack[i], is_child_of(ls, (s.stack[i]).0, path)]
        0 <= i < s.stack.len() && (s.stack[i]).1 && is_child_of(ls, (s.stack[i]).0, path)
            ==> gone.contains(path) || stands_above(s.stack, i, path)
}

pub open spec fn stands_above(stack: Seq<(Seq<char>, bool)>, i: int, path: Seq<char>) -> bool {
    exists|j: int| i < j < stack.len() && (#[trigger] stack[j]).0 == path
}

/// A path that was removed or is still to be.
pub open spec fn is_accounted(s: WalkView, gone: Seq<Seq<char>>, path: Seq<char>) -> bool {
    gone.contains(path) || stands_above(s.stack, -1, path)
}

proof fn lemma_child_is_listed(dir: Seq<char>, entries: Seq<DirEntryView>, i: int)
    requires
        0 <= i < entries.len(),
        is_child(entries[i]),
    ensures
        has_dir_bit(entries[i].mode) ==> subdirectories(dir, entries).contains(
            child_path(dir, entries[i].name),
        ),
        !has_dir_bit(entries[i].mode) ==> leaves(dir, entries).contains(
            child_path(dir, entries[i].name),
        ),
    decreases entries.len(),
{
    let before = entries.drop_last();
    let p = child_path(dir, entries[i].name);
    if i == entries.len() - 1 {
        if has_dir_bit(entries[i].mode) {
            assert(subdirectories(dir, entries).last() == p);
        } else {
            assert(leaves(dir, entries).last() == p);
        }
    } else {
        lemma_child_is_listed(dir, before, i);
        if has_dir_bit(entries[i].mode) {
            let k = choose|k: int|
                0 <= k < subdirectories(dir, before).len() && subdirectories(dir, before)[k] == p;
            assert(subdirectories(dir, entries)[k] == p);
        } else {
            let k = choose|k: int| 0 <= k < leaves(dir, before).len() && leaves(dir, before)[k] == p;
            assert(leaves(dir, entries)[k] == p);
        }
    }
}

/// A directory is removed only once everything directly under it is gone, and
/// nothing that was to be removed is forgotten. Both hold of a walk that has
/// just begun, and each round keeps them.
pub proof fn law_children_are_removed_first(
    s: WalkView,
    ls: spec_fn(Seq<char>) -> Seq<DirEntryView>,
    gone: Seq<Seq<char>>,
    path: Seq<char>,
)
    requires
        children_go_first(s, ls, gone),
    ensures
        ({
            let after = walk_round(s, ls);
            &&& children_go_first(after.0, ls, gone + after.1)
            &&& is_accounted(s, gone, path) ==> is_accounted(after.0, gone + after.1, path)
            &&& walk_action(s) matches Some((dir, true)) ==> forall|p: Seq<char>| #[trigger]
                is_child_of(ls, dir, p) ==> gone.contains(p)
        }),
{
    let (t, new) = walk_round(s, ls);
    let all = gone + new;
    assert forall|p: Seq<char>| gone.contains(p) implies #[trigger] all.contains(p) by {
        let k = choose|k: int| 0 <= k < gone.len() && gone[k] == p;
        assert(all[k] == p);
    }
    assert forall|p: Seq<char>| new.contains(p) implies #[trigger] all.contains(p) by {
        let k = choose|k: int| 0 <= k < new.len() && new[k] == p;
        assert(all[gone.len() + k] == p);
    }
    match walk_action(s) {
        None => {
            assert(all =~= gone);
        },
        Some((dir, true)) => {
            let top = s.stack.len() - 1;
            assert(s.stack[top] == (dir, true));
            assert(new[0] == dir);
            assert forall|p: Seq<char>| #[trigger] is_child_of(ls, dir, p) implies gone.contains(
                p,
            ) by {
                assert(!stands_above(s.stack, top, p));
                assert(is_child_of(ls, (s.stack[top]).0, p));
            }
            assert forall|i: int, p: Seq<char>| -1 <= i < top && stands_above(
                s.stack,
                i,
                p,
            ) implies all.contains(p) || #[trigger] stands_above(t.stack, i, p) by {
                let j = choose|j: int| i < j < s.stack.len() && (#[trigger] s.stack[j]).0 == p;
                if j == top {
                    assert(new.contains(p));
                } else {
                    assert(t.stack[j] == s.stack[j]);
                }
            }
            assert forall|i: int, p: Seq<char>|
                #![trigger t.stack[i], is_child_of(ls, (t.stack[i]).0, p)]
                0 <= i < t.stack.len() && (t.stack[i]).1 && is_child_of(
                    ls,
                    (t.stack[i]).0,
                    p,
                ) implies all.contains(p) || stands_above(t.stack, i, p) by {
                assert(s.stack[i] == t.stack[i]);
                assert(gone.contains(p) || stands_above(s.stack, i, p));
            }
        },
        Some((dir, false)) => {
            let top = s.stack.len() - 1;
            let dirs = subdirectories(dir, ls(dir));
            assert(s.stack[top] == (dir, false));
            assert(t.stack == s.stack.drop_last().push((dir, true)) + to_list(dirs));
            assert forall|i: int| 0 <= i < top implies t.stack[i] == s.stack[i] by {}
            assert(t.stack[top] == (dir, true));
            assert forall|i: int, p: Seq<char>| -1 <= i < top && stands_above(
                s.stack,
                i,
                p,
            ) implies #[trigger] stands_above(t.stack, i, p) by {
                let j = choose|j: int| i < j < s.stack.len() && (#[trigger] s.stack[j]).0 == p;
                assert((t.stack[j]).0 == p);
            }
            assert forall|i: int, p: Seq<char>|
                #![trigger t.stack[i], is_child_of(ls, (t.stack[i]).0, p)]
                0 <= i < t.stack.len() && (t.stack[i]).1 && is_child_of(
                    ls,
                    (t.stack[i]).0,
                    p,
                ) implies all.contains(p) || stands_above(t.stack, i, p) by {
                if i < top {
                    assert(s.stack[i] == t.stack[i]);
                    assert(gone.contains(p) || stands_above(s.stack, i, p));
                } else if i == top {
                    let k = choose|k: int|
                        0 <= k < ls(dir).len() && is_child(#[trigger] ls(dir)[k]) && p
                            == child_path(dir, ls(dir)[k].name);
                    lemma_child_is_listed(dir, ls(dir), k);
                    if has_dir_bit(ls(dir)[k].mode) {
                        let m = choose|m: int| 0 <= m < dirs.len() && dirs[m] == p;
                        assert((t.stack[top + 1 + m]).0 == p);
                    } else {
                        assert(new.contains(p));
                    }
                } else {
                    assert(t.stack[i] == to_list(dirs)[i - top - 1]);
                }
            }
        },
    }
}

/// A walk that has just begun keeps to the order, and has its root still to do.
pub proof fn law_walk_begins_with_its_root(
    root: Seq<char>,
    ls: spec_fn(Seq<char>) -> Seq<DirEntryView>,
)
    ensures
        ({
            let s = WalkView { stack: seq![(root, false)], removed: 0 };
            &&& children_go_first(s, ls, Seq::empty())
            &&& is_accounted(s, Seq::empty(), root)
            &&& stays_under(s, ls, root)
        }),
{
    let s = WalkView { stack: seq![(root, false)], removed: 0 };
    assert((s.stack[0]).0 == root);
    assert(is_reached(ls, root, root, 0));
}

/// `dir` is reached from `root` through `n` directories, and no links.
pub open spec fn is_reached(
    ls: spec_fn(Seq<char>) -> Seq<DirEntryView>,
    root: Seq<char>,
    dir: Seq<char>,
    n: nat,
) -> bool
    decreases n,
{
    if n == 0 {
        dir == root
    } else {
        exists|up: Seq<char>, i: int|
            #![trigger ls(up)[i]]
            is_reached(ls, root, up, (n - 1) as nat) && 0 <= i < ls(up).len() && is_child(ls(up)[i])
                && has_dir_bit(ls(up)[i].mode) && dir == child_path(up, ls(up)[i].name)
    }
}

/// Every directory of the walk is reached from the root.
pub open spec fn stays_under(
    s: WalkView,
    ls: spec_fn(Seq<char>) -> Seq<DirEntryView>,
    root: Seq<char>,
) -> bool {
    forall|i: int|
        0 <= i < s.stack.len() ==> is_under(ls, root, (#[trigger] s.stack[i]).0)
}

pub open spec fn is_under(
    ls: spec_fn(Seq<char>) -> Seq<DirEntryView>,
    root: Seq<char>,
    dir: Seq<char>,
) -> bool {
    exists|n: nat| is_reached(ls, root, dir, n)
}

proof fn lemma_subdirectory_is_listed(dir: Seq<char>, entries: Seq<DirEntryView>, k: int) -> (i:
    int)
    requires
        0 <= k < subdirectories(dir, entries).len(),
    ensures
        0 <= i < entries.len(),
        is_child(entries[i]),
        has_dir_bit(entries[i].mode),
        subdirectories(dir, entries)[k] == child_path(dir, entries[i].name),
    decreases entries.len(),
{
    let before = entries.drop_last();
    if k < subdirectories(dir, before).len() {
        lemma_subdirectory_is_listed(dir, before, k)
    } else {
        entries.len() - 1
    }
}

/// A recursive removal never leaves the tree it was started on: it walks only
/// directories that are reached from the root through directories, so no link
/// leads it anywhere.
pub proof fn law_walk_stays_under_its_root(
    s: WalkView,
    ls: spec_fn(Seq<char>) -> Seq<DirEntryView>,
    root: Seq<char>,
)
    requires
        stays_under(s, ls, root),
    ensures
        stays_under(walk_round(s, ls).0, ls, root),
{
    let t = walk_round(s, ls).0;
    assert forall|i: int| 0 <= i < t.stack.len() implies is_under(
        ls,
        root,
        (#[trigger] t.stack[i]).0,
    ) by {
        if i < s.stack.len() {
            assert((t.stack[i]).0 == (s.stack[i]).0);
        } else {
            let dir = (s.stack.last()).0;
            assert((s.stack[s.stack.len() - 1]).0 == dir);
            let n = choose|n: nat| is_reached(ls, root, dir, n);
            let k = i - s.stack.len();
            let e = lemma_subdirectory_is_listed(dir, ls(dir), k);
            assert(ls(dir)[e] == ls(dir)[e]);
            assert(is_reached(ls, root, (t.stack[i]).0, n + 1));
        }
    }
}

// ---------------------------------------------------------------------------
// Listings
// ---------------------------------------------------------------------------

/// What a server said of an entry.
#[derive(Debug, Clone, Copy)]
pub struct Attributes {
    pub size: Option<u64>,
    pub mode: Option<u32>,
    pub mtime: Option<u32>,
    pub uid: Option<u32>,
    pub gid: Option<u32>,
}

/// A line of a listing.
#[derive(Debug)]
pub struct ListEntry {
    pub name: String,
    pub kind: &'static str,
    pub size: u64,
    pub mode: u32,
    pub mtime: u64,
}

#[verifier::ext_equal]
pub struct ListView {
    pub name: Seq<char>,
    pub kind: Seq<char>,
    pub size: u64,
    pub mode: u32,
    pub mtime: u64,
}

impl View for ListEntry {
    type V = ListView;

    open spec fn view(&self) -> ListView {
        ListView {
            name: self.name@,
            kind: self.kind@,
            size: self.size,
            mode: self.mode,
            mtime: self.mtime,
        }
    }
}

pub open spec fn list_views(s: Seq<ListEntry>) -> Seq<ListView> {
    Seq::new(s.len(), |i: int| s[i]@)
}

pub open spec fn or_zero(x: Option<u32>) -> u32 {
    match x {
        Some(n) => n,
        None => 0,
    }
}

pub open spec fn size_or_zero(x: Option<u64>) -> u64 {
    match x {
        Some(n) => n,
        None => 0,
    }
}

/// The line of an entry. What the server left out counts as zero.
pub open spec fn line_of(name: Seq<char>, a: Attributes) -> ListView {
    ListView {
        name,
        kind: kind_text(a.mode),
        size: size_or_zero(a.size),
        mode: or_zero(a.mode),
        mtime: or_zero(a.mtime) as u64,
    }
}

/// Where a name goes in a listing: behind the names that are not after it.
pub open spec fn place_of(s: Seq<ListView>, name: Seq<char>) -> int
    decreases s.len(),
{
    if s.len() == 0 || text_le(s.last().name, name) {
        s.len() as int
    } else {
        place_of(s.drop_last(), name)
    }
}

/// The listing of a directory, by name.
pub open spec fn listing_of(entries: Seq<(Seq<char>, Attributes)>) -> Seq<ListView>
    decreases entries.len(),
{
    if entries.len() == 0 {
        Seq::empty()
    } else {
        let before = listing_of(entries.drop_last());
        let e = entries.last();
        before.insert(place_of(before, e.0), line_of(e.0, e.1))
    }
}

pub open spec fn named_attributes(s: Seq<(String, Attributes)>) -> Seq<(Seq<char>, Attributes)> {
    Seq::new(s.len(), |i: int| ((s[i]).0@, (s[i]).1))
}

proof fn lemma_place(s: Seq<ListView>, name: Seq<char>)
    ensures
        0 <= place_of(s, name) <= s.len(),
        place_of(s, name) > 0 ==> text_le(s[place_of(s, name) - 1].name, name),
        forall|j: int|
            place_of(s, name) <= j < s.len() ==> !text_le((#[trigger] s[j]).name, name),
    decreases s.len(),
{
    if s.len() > 0 && !text_le(s.last().name, name) {
        lemma_place(s.drop_last(), name);
        assert forall|j: int| place_of(s, name) <= j < s.len() implies !text_le(
            (#[trigger] s[j]).name,
            name,
        ) by {
            if j < s.len() - 1 {
                assert(s.drop_last()[j] == s[j]);
            }
        }
    }
}

fn word_or_zero(x: Option<u32>) -> (r: u32)
    ensures
        r == or_zero(x),
{
    match x {
        Some(n) => n,
        None => 0,
    }
}

fn long_or_zero(x: Option<u64>) -> (r: u64)
    ensures
        r == size_or_zero(x),
{
    match x {
        Some(n) => n,
        None => 0,
    }
}

/// The listing of a directory, by name, so the answer is the same each time.
pub fn list_dir(entries: &Vec<(String, Attributes)>) -> (r: Vec<ListEntry>)
    ensures
        list_views(r@) == listing_of(named_attributes(entries@)),
{
    let ghost all = named_attributes(entries@);
    let mut out: Vec<ListEntry> = Vec::new();
    let mut i: usize = 0;
    assert(list_views(out@) =~= listing_of(all.take(0)));
    while i < entries.len()
        invariant
            i <= entries@.len(),
            all == named_attributes(entries@),
            list_views(out@) == listing_of(all.take(i as int)),
        decreases entries@.len() - i,
    {
        proof {
            assert(all.take(i + 1).drop_last() =~= all.take(i as int));
            assert(all.take(i + 1).last() == all[i as int]);
        }
        let name = entries[i].0.as_str();
        let a = entries[i].1;
        let ghost before = list_views(out@);
        let mut at: usize = out.len();
        assert(before.take(at as int) =~= before);
        while at > 0 && !in_order(out[at - 1].name.as_str(), name)
            invariant
                at <= out@.len(),
                before == list_views(out@),
                place_of(before.take(at as int), name@) == place_of(before, name@),
            decreases at,
        {
            assert(before.take(at as int).drop_last() =~= before.take(at - 1));
            assert(before.take(at as int).last().name == out@[at - 1].name@);
            at = at - 1;
        }
        proof {
            if at > 0 {
                assert(before.take(at as int).last().name == out@[at - 1].name@);
            }
            assert(place_of(before, name@) == at);
        }
        let line = ListEntry {
            name: name.to_owned(),
            kind: kind_of(a.mode),
            size: long_or_zero(a.size),
            mode: word_or_zero(a.mode),
            mtime: word_or_zero(a.mtime) as u64,
        };
        let ghost shown = line@;
        out.insert(at, line);
        proof {
            assert(shown =~= line_of(name@, a));
            assert(list_views(out@) =~= before.insert(at as int, shown));
        }
        i = i + 1;
    }
    assert(all.take(i as int) =~= all);
    out
}

pub open spec fn lines_of_entries(entries: Seq<(Seq<char>, Attributes)>) -> Seq<ListView> {
    Seq::new(entries.len(), |i: int| line_of((entries[i]).0, (entries[i]).1))
}

/// A listing is in the order of the names, and shows each entry once.
pub proof fn law_listing_is_sorted(entries: Seq<(Seq<char>, Attributes)>)
    ensures
        forall|i: int, j: int|
            0 <= i <= j < listing_of(entries).len() ==> text_le(
                (#[trigger] listing_of(entries)[i]).name,
                (#[trigger] listing_of(entries)[j]).name,
            ),
        listing_of(entries).to_multiset() == lines_of_entries(entries).to_multiset(),
    decreases entries.len(),
{
    broadcast use vstd::seq_lib::group_to_multiset_ensures;

    if entries.len() == 0 {
        assert(listing_of(entries) =~= lines_of_entries(entries));
    } else {
        let rest = entries.drop_last();
        let b = listing_of(rest);
        let e = entries.last();
        let x = line_of(e.0, e.1);
        let at = place_of(b, e.0);
        law_listing_is_sorted(rest);
        lemma_place(b, e.0);
        let s = b.insert(at, x);
        assert forall|i: int, j: int| 0 <= i <= j < s.len() implies text_le(
            (#[trigger] s[i]).name,
            (#[trigger] s[j]).name,
        ) by {
            lemma_text_le_total(s[i].name, s[i].name);
            if i < at && j == at {
                lemma_text_le_transitive(b[i].name, b[at - 1].name, e.0);
            } else if i == at && j > at {
                lemma_text_le_total(e.0, b[j - 1].name);
            } else if i < at && j < at {
                assert(s[i] == b[i] && s[j] == b[j]);
            } else if i < at && j > at {
                assert(s[i] == b[i] && s[j] == b[j - 1]);
            } else if i > at {
                assert(s[i] == b[i - 1] && s[j] == b[j - 1]);
            }
        }
        vstd::seq_lib::to_multiset_insert(b, at, x);
        assert(lines_of_entries(entries) =~= lines_of_entries(rest).push(x));
    }
}

/// What `stat` reports.
#[derive(Debug)]
pub struct StatEntry {
    pub kind: &'static str,
    pub size: u64,
    pub mode: u32,
    pub mtime: u64,
    pub uid: u32,
    pub gid: u32,
    /// Resolved target when `kind == "link"`. `None` for everything else, or
    /// when the link dangles.
    pub target: Option<String>,
}

/// Whether `stat` asks what an entry points at.
pub fn has_target(a: &Attributes) -> (r: bool)
    ensures
        r == (kind_text(a.mode) == "link"@),
{
    proof {
        reveal_strlit("dir");
        reveal_strlit("link");
        reveal_strlit("file");
        reveal_strlit("other");
        assert("dir"@.len() != "link"@.len());
        assert("other"@.len() != "link"@.len());
        assert("file"@[0] != "link"@[0]);
    }
    same(kind_of(a.mode), "link")
}

/// What `stat` reports of an entry: of the link itself, where it is one. A link
/// that dangles is reported without a target, though its text can be read; that
/// is no failure.
pub fn stat(a: &Attributes, read_link: Option<String>, target_exists: bool) -> (r: StatEntry)
    ensures
        r.kind@ == kind_text(a.mode),
        r.size == size_or_zero(a.size),
        r.mode == or_zero(a.mode),
        r.mtime == or_zero(a.mtime),
        r.uid == or_zero(a.uid),
        r.gid == or_zero(a.gid),
        r.target == (if kind_text(a.mode) == "link"@ && target_exists {
            read_link
        } else {
            None
        }),
{
    let target = if has_target(a) && target_exists {
        read_link
    } else {
        None
    };
    StatEntry {
        kind: kind_of(a.mode),
        size: long_or_zero(a.size),
        mode: word_or_zero(a.mode),
        mtime: word_or_zero(a.mtime) as u64,
        uid: word_or_zero(a.uid),
        gid: word_or_zero(a.gid),
        target,
    }
}

// ---------------------------------------------------------------------------
// Binary content
// ---------------------------------------------------------------------------

/// A control character other than a line break or a tab.
pub open spec fn is_weird(b: u8) -> bool {
    b < 0x20 && b != 10 && b != 13 && b != 9
}

pub open spec fn weird_count(bytes: Seq<u8>) -> nat
    decreases bytes.len(),
{
    if bytes.len() == 0 {
        0
    } else {
        weird_count(bytes.drop_last()) + (if is_weird(bytes.last()) {
            1nat
        } else {
            0
        })
    }
}

/// Content with a NUL byte, that is no UTF-8, or of which more than one byte in
/// twenty is a control character.
pub open spec fn is_binary(bytes: Seq<u8>) -> bool {
    ||| bytes.contains(0)
    ||| !vstd::utf8::valid_utf8(bytes)
    ||| weird_count(bytes) * 20 > bytes.len()
}

/// Heuristic binary detection. Used by `dn` inline to decide between text
/// passthrough and base64.
pub fn looks_binary(bytes: &[u8]) -> (r: bool)
    ensures
        r == (bytes@.len() > 0 && is_binary(bytes@)),
{
    let n: usize = bytes.len();
    if n == 0 {
        return false;
    }
    let mut weird: usize = 0;
    let mut i: usize = 0;
    let mut nul = false;
    while i < n
        invariant
            n == bytes@.len(),
            i <= n,
            weird <= i,
            weird == weird_count(bytes@.take(i as int)),
            nul == bytes@.take(i as int).contains(0),
        decreases n - i,
    {
        let b: u8 = bytes[i];
        proof {
            let next = bytes@.take(i + 1);
            assert(next.drop_last() =~= bytes@.take(i as int));
            assert(next.last() == b);
            if nul {
                let k = choose|k: int| 0 <= k < i && bytes@.take(i as int)[k] == 0;
                assert(next[k] == 0);
            }
            if b == 0 {
                assert(next[i as int] == 0);
            }
            if next.contains(0) && b != 0 {
                let k = choose|k: int| 0 <= k < next.len() && next[k] == 0;
                assert(bytes@.take(i as int)[k] == 0);
            }
        }
        if b == 0 {
            nul = true;
        }
        if b < 0x20 && b != 10 && b != 13 && b != 9 {
            weird = weird + 1;
        }
        i = i + 1;
    }
    assert(bytes@.take(i as int) =~= bytes@);
    if nul {
        return true;
    }
    if exact_text(bytes).is_none() {
        return true;
    }
    weird as u128 * 20 > n as u128
}

proof fn lemma_weird_add(a: Seq<u8>, b: Seq<u8>)
    ensures
        weird_count(a + b) == weird_count(a) + weird_count(b),
    decreases b.len(),
{
    if b.len() == 0 {
        assert(a + b =~= a);
    } else {
        lemma_weird_add(a, b.drop_last());
        assert((a + b).drop_last() =~= a + b.drop_last());
        assert((a + b).last() == b.last());
    }
}

/// The bytes of one character: itself below 128, else bytes from 128 on.
proof fn lemma_char_bytes(c: char)
    ensures
        (c as u32) < 128 ==> bytes_of(seq![c]) == seq![c as u8],
        (c as u32) >= 128 ==> forall|i: int|
            0 <= i < bytes_of(seq![c]).len() ==> #[trigger] bytes_of(seq![c])[i] >= 0x80,
        bytes_of(seq![c]).len() > 0,
{
    let s = seq![c];
    let b = bytes_of(s);
    vstd::utf8::encode_utf8_first_scalar(s);
    assert(s.drop_first() =~= Seq::empty());
    reveal_with_fuel(vstd::utf8::encode_utf8, 2);
    assert(b =~= vstd::utf8::encode_scalar(c as u32));
    if (c as u32) < 128 {
        vstd::utf8::is_ascii_chars_encode_utf8(s);
        assert(b =~= seq![c as u8]);
    }
}

proof fn lemma_weird_char(c: char)
    ensures
        weird_count(bytes_of(seq![c])) == (if c < ' ' && c != '\n' && c != '\r' && c != '\t' {
            1nat
        } else {
            0
        }),
        bytes_of(seq![c]).contains(0) == (c == '\0'),
{
    let a = bytes_of(seq![c]);
    lemma_char_bytes(c);
    if (c as u32) < 128 {
        reveal_with_fuel(weird_count, 2);
        assert(a[0] == c as u8);
    } else {
        lemma_not_weird(a);
    }
}

/// How many characters of a text are control characters other than line breaks
/// and tabs.
pub open spec fn controls(s: Seq<char>) -> nat {
    s.filter(|c: char| c < ' ' && c != '\n' && c != '\r' && c != '\t').len()
}

proof fn lemma_controls_front(s: Seq<char>)
    requires
        s.len() > 0,
    ensures
        controls(s) == controls(s.drop_first()) + (if s[0] < ' ' && s[0] != '\n' && s[0] != '\r'
            && s[0] != '\t' {
            1nat
        } else {
            0
        }),
{
    let odd = |c: char| c < ' ' && c != '\n' && c != '\r' && c != '\t';
    let first = seq![s[0]];
    assert(s =~= first + s.drop_first());
    Seq::filter_distributes_over_add(first, s.drop_first(), odd);
    assert(first.drop_last() =~= Seq::empty());
    assert(first.last() == s[0]);
    reveal_with_fuel(Seq::filter, 2);
    assert(Seq::<char>::empty().filter(odd).len() == 0);
}

proof fn lemma_weird_chars(s: Seq<char>)
    ensures
        weird_count(bytes_of(s)) == controls(s),
        bytes_of(s).contains(0) == s.contains('\0'),
    decreases s.len(),
{
    if s.len() == 0 {
        assert(bytes_of(s) =~= Seq::empty());
        assert(controls(s) == 0) by {
            reveal(Seq::filter);
        }
    } else {
        let first = seq![s[0]];
        let rest = s.drop_first();
        lemma_weird_chars(rest);
        assert(first.drop_first() =~= Seq::empty());
        let a = bytes_of(first);
        let b = bytes_of(rest);
        assert(bytes_of(s) =~= a + b) by {
            reveal_with_fuel(vstd::utf8::encode_utf8, 2);
            assert(first[0] == s[0]);
        }
        lemma_weird_add(a, b);
        lemma_controls_front(s);
        lemma_weird_char(s[0]);
        if s.contains('\0') {
            let i = choose|i: int| 0 <= i < s.len() && s[i] == '\0';
            if i == 0 {
                let k = choose|k: int| 0 <= k < a.len() && a[k] == 0;
                assert(bytes_of(s)[k] == 0);
            } else {
                assert(rest[i - 1] == '\0');
                let k = choose|k: int| 0 <= k < b.len() && b[k] == 0;
                assert(bytes_of(s)[a.len() + k] == 0);
            }
        }
        if bytes_of(s).contains(0) {
            let k = choose|k: int| 0 <= k < bytes_of(s).len() && bytes_of(s)[k] == 0;
            if k < a.len() {
                assert(a[k] == 0);
            } else {
                assert(b[k - a.len()] == 0);
                let i = choose|i: int| 0 <= i < rest.len() && rest[i] == '\0';
                assert(s[i + 1] == '\0');
            }
        }
    }
}

proof fn lemma_no_controls(s: Seq<char>)
    requires
        forall|i: int|
            0 <= i < s.len() ==> #[trigger] s[i] >= ' ' || s[i] == '\n' || s[i] == '\r' || s[i]
                == '\t',
    ensures
        controls(s) == 0,
    decreases s.len(),
{
    if s.len() == 0 {
        reveal(Seq::filter);
    } else {
        let rest = s.drop_first();
        assert forall|i: int| 0 <= i < rest.len() implies #[trigger] rest[i] >= ' ' || rest[i]
            == '\n' || rest[i] == '\r' || rest[i] == '\t' by {
            assert(rest[i] == s[i + 1]);
        }
        lemma_no_controls(rest);
        lemma_controls_front(s);
    }
}

proof fn lemma_not_weird(a: Seq<u8>)
    requires
        forall|i: int| 0 <= i < a.len() ==> #[trigger] a[i] >= 0x80,
    ensures
        weird_count(a) == 0,
    decreases a.len(),
{
    if a.len() > 0 {
        lemma_not_weird(a.drop_last());
    }
}

/// Text is binary only for its control characters: a NUL, or more than one of
/// the others in twenty bytes. Which script it is written in does not matter.
pub proof fn law_text_is_judged_by_its_characters(s: Seq<char>)
    ensures
        is_binary(bytes_of(s)) == (s.contains('\0') || controls(s) * 20 > bytes_of(s).len()),
{
    lemma_weird_chars(s);
    vstd::utf8::encode_utf8_valid_utf8(s);
}

/// A text of printable characters, line breaks and tabs is text, in any script.
pub proof fn law_printable_text_is_text(s: Seq<char>)
    requires
        forall|i: int|
            0 <= i < s.len() ==> #[trigger] s[i] >= ' ' || s[i] == '\n' || s[i] == '\r' || s[i]
                == '\t',
    ensures
        !is_binary(bytes_of(s)),
{
    law_text_is_judged_by_its_characters(s);
    lemma_no_controls(s);
    if s.contains('\0') {
        let i = choose|i: int| 0 <= i < s.len() && s[i] == '\0';
        assert(s[i] >= ' ' || s[i] == '\n' || s[i] == '\r' || s[i] == '\t');
    }
}

/// Bytes that are no UTF-8, or hold a NUL, are binary.
pub proof fn law_raw_bytes_are_binary(bytes: Seq<u8>)
    ensures
        bytes.contains(0) ==> is_binary(bytes),
        !vstd::utf8::valid_utf8(bytes) ==> is_binary(bytes),
{
}

// ---------------------------------------------------------------------------
// Laws on paths and entries
// ---------------------------------------------------------------------------

proof fn lemma_leaf_at(dir: Seq<char>, leaf: Seq<char>)
    requires
        leaf.len() > 0,
        !leaf.contains('/'),
        dir.len() == 0 || dir.last() == '/',
    ensures
        without_last_slashes(dir + leaf) == dir + leaf,
        last_part_at(dir + leaf) == dir.len(),
{
    let p = dir + leaf;
    assert(p.last() == leaf.last());
    assert(leaf.contains(leaf.last()));
    lemma_last_part(dir, leaf);
}

proof fn lemma_last_part(dir: Seq<char>, leaf: Seq<char>)
    requires
        !leaf.contains('/'),
        dir.len() == 0 || dir.last() == '/',
    ensures
        last_part_at(dir + leaf) == dir.len(),
    decreases leaf.len(),
{
    let p = dir + leaf;
    if leaf.len() == 0 {
        assert(p =~= dir);
    } else {
        assert(p.last() == leaf.last());
        assert(leaf.contains(leaf.last()));
        let less = leaf.drop_last();
        assert forall|i: int| 0 <= i < less.len() implies less[i] != '/' by {
            assert(leaf.contains(leaf[i]));
        }
        lemma_last_part(dir, less);
        assert(p.drop_last() =~= dir + less);
    }
}

/// A path is split where its last name begins, and joining the two gives it
/// back. A slash at the end does not count, a name alone is below the working
/// directory, and one behind the first slash is below the root.
pub proof fn law_parent_and_leaf_make_the_path(dir: Seq<char>, leaf: Seq<char>, path: Seq<char>)
    requires
        leaf.len() > 0,
        !leaf.contains('/'),
        dir.len() > 0,
        dir.last() != '/',
    ensures
        parent_and_leaf(dir + seq!['/'] + leaf) == (dir, leaf),
        joined_remote(dir, leaf) == dir + seq!['/'] + leaf,
        parent_and_leaf(seq!['/'] + leaf) == (seq!['/'], leaf),
        joined_remote(seq!['/'], leaf) == seq!['/'] + leaf,
        parent_and_leaf(leaf) == (seq!['.'], leaf),
        parent_and_leaf(path.push('/')) == parent_and_leaf(path),
        joined_remote(dir, Seq::empty()) == dir,
{
    reveal_strlit("/");
    reveal_strlit(".");
    let slash = seq!['/'];
    assert("/"@ =~= slash);
    assert("."@ =~= seq!['.']);
    lemma_leaf_at(dir + slash, leaf);
    let p = dir + slash + leaf;
    assert(p.take(dir.len() as int) =~= dir);
    assert(p.skip(dir.len() as int + 1) =~= leaf);
    lemma_leaf_at(slash, leaf);
    assert((slash + leaf).skip(1) =~= leaf);
    lemma_leaf_at(Seq::empty(), leaf);
    assert(Seq::<char>::empty() + leaf =~= leaf);
    assert(path.push('/').drop_last() =~= path);
    assert(has_suffix(slash, "/"@)) by {
        assert(slash.skip(0) =~= slash);
    }
    assert(!has_suffix(dir, "/"@)) by {
        let end = dir.skip(dir.len() - 1);
        assert(end[0] == dir.last());
    }
}

proof fn lemma_non_empty_push(parts: Seq<Seq<char>>, part: Seq<char>)
    ensures
        non_empty(parts.push(part)) == (if part.len() == 0 {
            non_empty(parts)
        } else {
            non_empty(parts).push(part)
        }),
{
    assert(parts.push(part).drop_last() =~= parts);
}

/// The levels of a path are created one after the other: those of the directory
/// first, then the name below it. Slashes that stand twice or last change
/// nothing.
pub proof fn law_mkdir_creates_each_level(dir: Seq<char>, leaf: Seq<char>)
    requires
        dir.len() > 0,
        leaf.len() > 0,
        !leaf.contains('/'),
    ensures
        directories_of(leaf) == seq![leaf],
        directories_of(seq!['/'] + leaf) == seq![seq!['/'] + leaf],
        directories_of(dir.push('/')) == directories_of(dir),
        directories_of(dir).len() > 0 ==> directories_of(dir + seq!['/'] + leaf)
            == directories_of(dir).push(directories_of(dir).last() + seq!['/'] + leaf),
{
    let slash = seq!['/'];
    let none = Seq::<char>::empty();
    let no_parts = Seq::<Seq<char>>::empty();
    // A name alone.
    lemma_split_on_one(leaf, '/');
    assert(no_parts.push(leaf) =~= seq![leaf]);
    lemma_non_empty_push(no_parts, leaf);
    assert(non_empty(no_parts) =~= no_parts);
    assert(non_empty(seq![leaf]) =~= seq![leaf]);
    assert(leaf.contains(leaf[0]));
    assert(seq![leaf].take(1) =~= seq![leaf]);
    assert(directories_of(leaf)[0] =~= leaf);
    assert(directories_of(leaf) =~= seq![leaf]);
    // A name below the root.
    let rooted = slash + leaf;
    assert(none.push('/') + leaf =~= rooted);
    lemma_split_on_add(none, leaf, '/');
    lemma_split_on_one(none, '/');
    lemma_non_empty_push(no_parts, none);
    assert(no_parts.push(none) =~= seq![none]);
    lemma_non_empty_push(seq![none], leaf);
    assert(split_on(rooted, '/') =~= seq![none].push(leaf));
    assert(non_empty(split_on(rooted, '/')) =~= seq![leaf]);
    assert(directories_of(rooted)[0] =~= rooted);
    assert(directories_of(rooted) =~= seq![rooted]);
    // A slash at the end.
    let ended = dir.push('/');
    assert(ended + none =~= ended);
    lemma_split_on_add(dir, none, '/');
    assert(split_on(ended, '/') =~= split_on(dir, '/').push(none));
    lemma_non_empty_push(split_on(dir, '/'), none);
    assert(ended[0] == dir[0]);
    assert(directories_of(ended) =~= directories_of(dir));
    // A name below a directory.
    let whole = dir + slash + leaf;
    assert(whole =~= dir.push('/') + leaf);
    lemma_split_on_add(dir, leaf, '/');
    assert(split_on(whole, '/') =~= split_on(dir, '/').push(leaf));
    lemma_non_empty_push(split_on(dir, '/'), leaf);
    let parts = non_empty(split_on(dir, '/'));
    let more = parts.push(leaf);
    assert(whole[0] == dir[0]);
    if parts.len() > 0 {
        let root = if dir[0] == '/' {
            slash
        } else {
            none
        };
        assert forall|i: int| 0 <= i < parts.len() implies directories_of(whole)[i]
            == directories_of(dir)[i] by {
            assert(more.take(i + 1) =~= parts.take(i + 1));
        }
        let n = parts.len() as int;
        assert(more.take(n + 1) =~= more);
        assert(parts.take(n) =~= parts);
        assert(more.drop_last() =~= parts);
        assert(directories_of(dir).last() == root + join_with(parts, '/'));
        assert(join_with(more, '/') =~= join_with(parts, '/') + slash + leaf);
        assert(directories_of(whole)[n] =~= directories_of(dir).last() + slash + leaf);
        assert(directories_of(whole) =~= directories_of(dir).push(
            directories_of(dir).last() + slash + leaf,
        ));
    }
}

proof fn lemma_children(dir: Seq<char>, entries: Seq<DirEntryView>, i: int)
    requires
        0 <= i < entries.len(),
        is_child(entries[i]),
    ensures
        has_dir_bit(entries[i].mode) ==> subdirectories(dir, entries).contains(
            child_path(dir, entries[i].name),
        ),
        !has_dir_bit(entries[i].mode) ==> leaves(dir, entries).contains(
            child_path(dir, entries[i].name),
        ),
    decreases entries.len(),
{
    let d = subdirectories(dir, entries.drop_last());
    let f = leaves(dir, entries.drop_last());
    let path = child_path(dir, entries[i].name);
    if i == entries.len() - 1 {
        if has_dir_bit(entries[i].mode) {
            assert(subdirectories(dir, entries)[d.len() as int] == path);
        } else {
            assert(leaves(dir, entries)[f.len() as int] == path);
        }
    } else {
        lemma_children(dir, entries.drop_last(), i);
        if has_dir_bit(entries[i].mode) {
            let k = choose|k: int| 0 <= k < d.len() && d[k] == path;
            assert(subdirectories(dir, entries)[k] == path);
        } else {
            let k = choose|k: int| 0 <= k < f.len() && f[k] == path;
            assert(leaves(dir, entries)[k] == path);
        }
    }
}

proof fn lemma_only_children(dir: Seq<char>, entries: Seq<DirEntryView>, path: Seq<char>)
    requires
        subdirectories(dir, entries).contains(path) || leaves(dir, entries).contains(path),
    ensures
        exists|i: int|
            0 <= i < entries.len() && is_child(#[trigger] entries[i]) && path == child_path(
                dir,
                entries[i].name,
            ),
    decreases entries.len(),
{
    if entries.len() > 0 {
        let less = entries.drop_last();
        let e = entries.last();
        let d = subdirectories(dir, less);
        let f = leaves(dir, less);
        if is_child(e) && path == child_path(dir, e.name) {
            assert(entries[entries.len() - 1] == e);
        } else {
            let all_d = subdirectories(dir, entries);
            let all_f = leaves(dir, entries);
            if all_d.contains(path) {
                let k = choose|k: int| 0 <= k < all_d.len() && all_d[k] == path;
                assert(k < d.len());
                assert(d[k] == path);
            } else {
                let k = choose|k: int| 0 <= k < all_f.len() && all_f[k] == path;
                assert(k < f.len());
                assert(f[k] == path);
            }
            lemma_only_children(dir, less, path);
            let i = choose|i: int|
                0 <= i < less.len() && is_child(#[trigger] less[i]) && path == child_path(
                    dir,
                    less[i].name,
                );
            assert(entries[i] == less[i]);
        }
    }
}

/// A recursive removal takes every entry of a directory but the directory itself
/// and the one above it, hidden ones included: directories are walked, anything
/// else is removed as it is.
pub proof fn law_every_entry_is_taken(dir: Seq<char>, entries: Seq<DirEntryView>, i: int)
    requires
        0 <= i < entries.len(),
        dir.len() > 0,
        dir.last() != '/',
        entries[i].name != seq!['.'],
        entries[i].name != seq!['.', '.'],
    ensures
        match entries[i].mode {
            Some(m) => if m & 0x4000 == 0x4000 {
                subdirectories(dir, entries).contains(dir + seq!['/'] + entries[i].name)
            } else {
                leaves(dir, entries).contains(dir + seq!['/'] + entries[i].name)
            },
            None => leaves(dir, entries).contains(dir + seq!['/'] + entries[i].name),
        },
{
    reveal_strlit("/");
    reveal_strlit(".");
    reveal_strlit("..");
    assert("/"@ =~= seq!['/']);
    assert("."@ =~= seq!['.']);
    assert(".."@ =~= seq!['.', '.']);
    lemma_children(dir, entries, i);
    assert(!has_suffix(dir, "/"@)) by {
        let end = dir.skip(dir.len() - 1);
        assert(end[0] == dir.last());
    }
}

/// Nothing is taken that the directory does not hold, and neither the directory
/// itself nor the one above it ever is.
pub proof fn law_only_entries_are_taken(dir: Seq<char>, entries: Seq<DirEntryView>, path: Seq<char>)
    requires
        dir.len() > 0,
        dir.last() != '/',
        subdirectories(dir, entries).contains(path) || leaves(dir, entries).contains(path),
    ensures
        exists|i: int|
            0 <= i < entries.len() && (#[trigger] entries[i]).name != seq!['.'] && entries[i].name
                != seq!['.', '.'] && path == dir + seq!['/'] + entries[i].name,
{
    reveal_strlit("/");
    reveal_strlit(".");
    reveal_strlit("..");
    assert("/"@ =~= seq!['/']);
    assert("."@ =~= seq!['.']);
    assert(".."@ =~= seq!['.', '.']);
    lemma_only_children(dir, entries, path);
    assert(!has_suffix(dir, "/"@)) by {
        let end = dir.skip(dir.len() - 1);
        assert(end[0] == dir.last());
    }
}

/// What an entry is follows from the file type in its mode.
pub proof fn law_kind_is_the_file_type(m: u32)
    ensures
        m & 0xF000 == 0x4000 ==> kind_text(Some(m)) == "dir"@,
        m & 0xF000 == 0x8000 ==> kind_text(Some(m)) == "file"@,
        m & 0xF000 == 0xA000 ==> kind_text(Some(m)) == "link"@,
        m & 0xF000 == 0x1000 ==> kind_text(Some(m)) == "other"@,
        kind_text(None) == "other"@,
{
    assert(m & 0xF000 == 0x4000 ==> m & 0x4000 == 0x4000) by (bit_vector);
    assert(m & 0xF000 == 0x8000 ==> m & 0x4000 != 0x4000 && m & 0xA000 != 0xA000 && m & 0x8000
        == 0x8000) by (bit_vector);
    assert(m & 0xF000 == 0xA000 ==> m & 0x4000 != 0x4000 && m & 0xA000 == 0xA000) by (bit_vector);
    assert(m & 0xF000 == 0x1000 ==> m & 0x4000 != 0x4000 && m & 0xA000 != 0xA000 && m & 0x8000
        != 0x8000) by (bit_vector);
}

/// A listing shows of each entry what the server said of it, and zero for what it
/// left out.
pub proof fn law_line_shows_the_attributes(name: Seq<char>, a: Attributes)
    ensures
        line_of(name, a).name == name,
        line_of(name, a).kind == kind_text(a.mode),
        a.size is Some ==> line_of(name, a).size == a.size->0,
        a.size is None ==> line_of(name, a).size == 0,
        a.mode is Some ==> line_of(name, a).mode == a.mode->0,
        a.mode is None ==> line_of(name, a).mode == 0,
        a.mtime is Some ==> line_of(name, a).mtime == a.mtime->0,
        a.mtime is None ==> line_of(name, a).mtime == 0,
{
}

/// As many handles share a file as there are parts of the least size in it, up to
/// the most that are allowed.
pub proof fn law_a_handle_for_each_part(size: nat, min: nat, most: nat)
    requires
        size > 0,
        min > 0,
        most > 0,
    ensures
        1 <= workers_for(size, min, most) <= most,
        workers_for(size, min, most) < most ==> workers_for(size, min, most) * min >= size,
        (workers_for(size, min, most) - 1) * min < size,
{
    let w = workers_for(size, min, most);
    let q = size / min;
    let r = size % min;
    assert(size == min * q + r && r < min) by {
        vstd::arithmetic::div_mod::lemma_fundamental_div_mod(size as int, min as int);
    }
    assert(min * q == q * min) by (nonlinear_arith);
    let c = ceil_div(size, min);
    assert(c * min >= size) by {
        if r > 0 {
            assert((q + 1) * min == q * min + min) by (nonlinear_arith);
        }
    }
    assert((c - 1) * min < size) by {
        if r == 0 {
            assert((q - 1) * min == q * min - min) by (nonlinear_arith);
        }
    }
    assert(c >= 1) by (nonlinear_arith)
        requires
            c * min >= size,
            size > 0,
    ;
    assert((w - 1) * min <= (c - 1) * min) by (nonlinear_arith)
        requires
            w <= c || c < 1,
            w >= 1,
            min > 0,
            c >= 1,
    ;
}

} // verus!

//! Filesystem tools: `ls`, `stat`, `dn`, `up`, `cp`, `wr`, `mkdir`, `rm`,
//! `tail`.

use base64::Engine;
use vstd::prelude::*;
use vstd::string::*;

use crate::confirm::{
    byte_views, is_queued, key_for, key_text, known_answer, Answer, Ask, Confirm,
};
use crate::errors::{Result, SshError};
use crate::output::toon::{
    block_text, field_text, hint_text, row_views, scalar, str_views, string_views, table_text, Toon,
};
use crate::output::truncate::{displayed, law_what_fits_is_shown_whole, truncate_with_hint};
use crate::sftp::{
    is_binary, law_printable_text_is_text, law_raw_bytes_are_binary, list_views, looks_binary,
    ListEntry, ListView, StatEntry,
};
use crate::ssh_config::opt_view;
use crate::tail::TailChunk;
use crate::text::{
    bytes_of, decimal, digits_value, has_part, has_suffix, is_space, joined3,
    law_decimal_reads_back, law_octal_reads_back, law_white_space, law_words_are_between_spaces,
    lemma_has_part, octal, octal_value, push_decimal, push_octal, push_signed, same,
    signed_decimal, text_of, to_text, views, words, words_of,
};
use crate::tools::run::shown;
use crate::tools::{
    maybe_field, push_maybe, quoted_word, shell_quote, str_view, MAX_FOLLOW_SECS, MAX_LS_ENTRIES,
    MAX_WRITE_INLINE_BYTES,
};

verus! {

// ---------------------------------------------------------------------------
// up and dn
// ---------------------------------------------------------------------------

/// What every transfer reports.
pub open spec fn transfer_text(bytes: nat, duration_ms: u128) -> Seq<char> {
    field_text(0, "bytes"@, decimal(bytes)) + field_text(
        0,
        "ms"@,
        decimal((duration_ms as u64) as nat),
    )
}

fn push_transfer(t: &mut Toon, bytes: usize, duration_ms: u128)
    requires
        old(t).depth() == 0,
    ensures
        final(t).depth() == 0,
        final(t).text() == old(t).text() + transfer_text(bytes as nat, duration_ms),
{
    let ghost before = t.text();
    let _ = t.field("bytes", bytes);
    let _ = t.field("ms", #[verifier::truncate] (duration_ms as u64));
    assert(t.text() =~= before + transfer_text(bytes as nat, duration_ms));
}

/// The answer of `up`.
pub open spec fn upload_text(
    host: Seq<char>,
    local: Seq<char>,
    remote: Seq<char>,
    bytes: nat,
    duration_ms: u128,
) -> Seq<char> {
    field_text(0, "host"@, scalar(host)) + field_text(0, "local"@, scalar(local)) + field_text(
        0,
        "remote"@,
        scalar(remote),
    ) + transfer_text(bytes, duration_ms)
}

/// The answer of `up`.
pub fn format_upload(
    host: &str,
    local: &str,
    remote: &str,
    bytes: usize,
    duration_ms: u128,
) -> (r: String)
    ensures
        r@ == upload_text(host@, local@, remote@, bytes as nat, duration_ms),
{
    let mut t = Toon::new();
    let _ = t.field("host", host);
    assert(t.text() =~= field_text(0, "host"@, scalar(host@)));
    let _ = t.field("local", local);
    let _ = t.field("remote", remote);
    push_transfer(&mut t, bytes, duration_ms);
    t.into_string()
}

/// Three bytes as one number, with zeroes behind the end.
pub open spec fn base64_group(bytes: Seq<u8>, g: int) -> int {
    let at = |i: int| if i < bytes.len() {
        bytes[i] as int
    } else {
        0
    };
    at(3 * g) * 65536 + at(3 * g + 1) * 256 + at(3 * g + 2)
}

/// One of the four digits that stand for three bytes, most significant first.
pub open spec fn base64_digit(group: int, j: int) -> int {
    if j == 0 {
        group / 262144
    } else if j == 1 {
        group / 4096 % 64
    } else if j == 2 {
        group / 64 % 64
    } else {
        group % 64
    }
}

/// A byte string in base64, with the standard alphabet and padding.
pub open spec fn base64_of(bytes: Seq<u8>) -> Seq<char> {
    let digits = "ABCDEFGHIJKLMNOPQRSTUVWXYZabcdefghijklmnopqrstuvwxyz0123456789+/"@;
    Seq::new(
        (bytes.len() + 2) / 3 * 4,
        |k: int|
            if k / 4 * 3 + k % 4 > bytes.len() {
                '='
            } else {
                digits[base64_digit(base64_group(bytes, k / 4), k % 4)]
            },
    )
}

/// `base64::Engine::encode` of `base64::engine::general_purpose::STANDARD`: base64
/// with the standard alphabet, padded to a multiple of four characters.
#[verifier::external_body]
pub(crate) fn base64_text(bytes: &[u8]) -> (r: String)
    ensures
        r@ == base64_of(bytes@),
{
    base64::engine::general_purpose::STANDARD.encode(bytes)
}

/// What `dn` shows of a file that was returned: text as it is, cut to the
/// display budget, anything else in base64.
pub open spec fn content_text(content: Seq<u8>, truncate: nat) -> Seq<char> {
    if content.len() > 0 && is_binary(content) {
        field_text(0, "encoding"@, scalar("base64"@)) + block_text(
            0,
            "content"@,
            base64_of(content),
        )
    } else {
        let text = bytes_of(text_of(content));
        block_text(
            0,
            "content"@,
            displayed(text, Seq::empty(), text.len() as int, truncate as int),
        )
    }
}

/// What `dn` says of where the content is.
pub open spec fn delivery_text(
    content: Option<Seq<u8>>,
    local: Option<Seq<char>>,
    truncate: nat,
) -> Seq<char> {
    match content {
        Some(c) => content_text(c, truncate),
        None => match local {
            Some(p) => field_text(0, "local"@, scalar(p)),
            None => field_text(
                0,
                "content"@,
                scalar("(too large for inline; rerun with local=<path>)"@),
            ),
        },
    }
}

/// The answer of `dn`.
pub open spec fn download_text(
    host: Seq<char>,
    remote: Seq<char>,
    bytes: nat,
    duration_ms: u128,
    delivery: Seq<char>,
) -> Seq<char> {
    field_text(0, "host"@, scalar(host)) + field_text(0, "remote"@, scalar(remote))
        + transfer_text(bytes, duration_ms) + delivery
}

fn push_content(t: &mut Toon, content: &Vec<u8>, truncate: usize)
    requires
        old(t).depth() == 0,
        old(t).wf(),
    ensures
        final(t).depth() == 0,
        final(t).text() == old(t).text() + content_text(content@, truncate as nat),
{
    let ghost before = t.text();
    if looks_binary(content.as_slice()) {
        let encoded = base64_text(content.as_slice());
        let _ = t.field("encoding", "base64");
        let _ = t.block("content", encoded.as_str());
        assert(t.text() =~= before + content_text(content@, truncate as nat));
    } else {
        let s = to_text(content.as_slice());
        let (display, _) = truncate_with_hint(s.as_str(), truncate);
        let display = shown(display);
        let _ = t.block("content", display.as_str());
    }
}

pub open spec fn content_view(c: Option<Vec<u8>>) -> Option<Seq<u8>> {
    match c {
        Some(v) => Some(v@),
        None => None,
    }
}

/// The answer of `dn`.
pub fn format_download(
    host: &str,
    remote: &str,
    bytes: usize,
    duration_ms: u128,
    content: &Option<Vec<u8>>,
    local: Option<&str>,
    truncate: usize,
) -> (r: String)
    ensures
        r@ == download_text(
            host@,
            remote@,
            bytes as nat,
            duration_ms,
            delivery_text(content_view(*content), str_view(local), truncate as nat),
        ),
{
    let mut t = Toon::new();
    let _ = t.field("host", host);
    assert(t.text() =~= field_text(0, "host"@, scalar(host@)));
    let _ = t.field("remote", remote);
    push_transfer(&mut t, bytes, duration_ms);
    match content {
        Some(c) => push_content(&mut t, c, truncate),
        None => match local {
            Some(p) => {
                let _ = t.field("local", p);
            },
            None => {
                let _ = t.field("content", "(too large for inline; rerun with local=<path>)");
            },
        },
    }
    t.into_string()
}

// ---------------------------------------------------------------------------
// cp
// ---------------------------------------------------------------------------

/// The command that takes the digest of a file. `shasum` is the macOS spelling;
/// the fallback costs nothing when the first one exists.
pub fn digest_command(path: &str) -> (r: String)
    ensures
        r@ == "sha256sum -- "@ + quoted_word(path@) + " 2>/dev/null || shasum -a 256 -- "@
            + quoted_word(path@),
{
    let q = shell_quote(path);
    let mut s = joined3("sha256sum -- ", q.as_str(), " 2>/dev/null || shasum -a 256 -- ");
    s.push_str(q.as_str());
    s
}

/// The digest that the command printed, or why there is none.
pub open spec fn digest_of(exit_code: i32, stdout: Seq<char>) -> core::result::Result<
    Seq<char>,
    Seq<char>,
> {
    let ws = words_of(stdout);
    if exit_code != 0 {
        Err("sha256sum unavailable (exit "@ + signed_decimal(exit_code as int) + ")"@)
    } else if ws.len() > 0 && bytes_of(ws[0]).len() == 64 {
        Ok(ws[0])
    } else {
        Err("unparseable sha256sum output"@)
    }
}

pub open spec fn digest_view(r: core::result::Result<String, String>) -> core::result::Result<
    Seq<char>,
    Seq<char>,
> {
    match r {
        Ok(s) => Ok(s@),
        Err(s) => Err(s@),
    }
}

/// The digest that the command printed, or why there is none.
pub fn read_digest(exit_code: i32, stdout: &str) -> (r: core::result::Result<String, String>)
    ensures
        digest_view(r) == digest_of(exit_code, stdout@),
{
    if exit_code != 0 {
        let mut m = "sha256sum unavailable (exit ".to_owned();
        push_signed(&mut m, exit_code as i64);
        m.push_str(")");
        return Err(m);
    }
    let ws = words(stdout);
    assert(views(ws@).len() == ws@.len());
    if ws.len() > 0 {
        assert(views(ws@)[0] == ws@[0]@);
        if ws[0].as_str().as_bytes().len() == 64 {
            return Ok(ws[0].clone());
        }
    }
    Err("unparseable sha256sum output".to_owned())
}

/// What comparing the two ends of a copy came to.
#[derive(Debug)]
pub enum Verification {
    /// Both ends have this digest.
    Verified(String),
    /// The digests could not be compared. This is no failure, but it must not
    /// read as verified.
    Skipped(String),
    /// No comparison was asked for.
    NotAsked,
}

pub open spec fn mismatch_text(
    from_host: Seq<char>,
    a: Seq<char>,
    to_host: Seq<char>,
    b: Seq<char>,
) -> Seq<char> {
    "sha256 mismatch: "@ + from_host + " "@ + a + ", "@ + to_host + " "@ + b
}

/// Compares the two ends of a copy. The digests are taken by the hosts
/// themselves: the bytes in flight came out of one buffer, so they could only
/// prove that the buffer agrees with itself.
pub fn compare_digests(
    from_host: &str,
    a: core::result::Result<String, String>,
    to_host: &str,
    b: core::result::Result<String, String>,
) -> (r: Result<Verification>)
    ensures
        match (a, b) {
            (Ok(x), Ok(y)) => if x@ == y@ {
                r is Ok && r->Ok_0 is Verified && r->Ok_0->Verified_0@ == x@
            } else {
                r is Err && r->Err_0 is Other && r->Err_0->Other_0@ == mismatch_text(
                    from_host@,
                    x@,
                    to_host@,
                    y@,
                )
            },
            (Err(e), _) => r is Ok && r->Ok_0 is Skipped && r->Ok_0->Skipped_0@ == from_host@
                + ": "@ + e@,
            (_, Err(e)) => r is Ok && r->Ok_0 is Skipped && r->Ok_0->Skipped_0@ == to_host@ + ": "@
                + e@,
        },
{
    match (a, b) {
        (Ok(x), Ok(y)) => {
            if same(x.as_str(), y.as_str()) {
                return Ok(Verification::Verified(x));
            }
            let mut m = joined3("sha256 mismatch: ", from_host, " ");
            m.push_str(x.as_str());
            m.push_str(", ");
            m.push_str(to_host);
            m.push_str(" ");
            m.push_str(y.as_str());
            Err(SshError::Other(m))
        },
        (Err(e), _) => Ok(Verification::Skipped(joined3(from_host, ": ", e.as_str()))),
        (_, Err(e)) => Ok(Verification::Skipped(joined3(to_host, ": ", e.as_str()))),
    }
}

pub open spec fn verification_text(v: Verification) -> Seq<char> {
    match v {
        Verification::Verified(digest) => field_text(0, "verified"@, "true"@) + field_text(
            0,
            "sha256"@,
            scalar(digest@),
        ),
        Verification::Skipped(why) => field_text(0, "verified"@, "false"@) + field_text(
            0,
            "verify_skipped"@,
            scalar(why@),
        ),
        Verification::NotAsked => Seq::empty(),
    }
}

/// A path on a host.
pub open spec fn on_host(host: Seq<char>, path: Seq<char>) -> Seq<char> {
    host + ":"@ + path
}

/// The answer of `cp`. The rate is given by the caller, where there is one.
pub open spec fn copy_text(
    from: Seq<char>,
    to: Seq<char>,
    bytes: nat,
    duration_ms: u128,
    mbps: Option<Seq<char>>,
    v: Verification,
) -> Seq<char> {
    field_text(0, "from"@, scalar(from)) + field_text(0, "to"@, scalar(to)) + transfer_text(
        bytes,
        duration_ms,
    ) + maybe_field("mbps"@, mbps) + verification_text(v)
}

fn push_verification(t: &mut Toon, v: &Verification)
    requires
        old(t).depth() == 0,
    ensures
        final(t).depth() == 0,
        final(t).text() == old(t).text() + verification_text(*v),
{
    let ghost before = t.text();
    match v {
        Verification::Verified(digest) => {
            let _ = t.field("verified", true);
            let _ = t.field("sha256", digest.as_str());
        },
        Verification::Skipped(why) => {
            let _ = t.field("verified", false);
            let _ = t.field("verify_skipped", why.as_str());
        },
        Verification::NotAsked => {},
    }
    assert(t.text() =~= before + verification_text(*v));
}

/// The answer of `cp`.
pub fn format_copy(
    from_host: &str,
    from: &str,
    to_host: &str,
    to: &str,
    bytes: usize,
    duration_ms: u128,
    mbps: Option<&str>,
    v: &Verification,
) -> (r: String)
    ensures
        r@ == copy_text(
            on_host(from_host@, from@),
            on_host(to_host@, to@),
            bytes as nat,
            duration_ms,
            str_view(mbps),
            *v,
        ),
{
    let source = joined3(from_host, ":", from);
    let target = joined3(to_host, ":", to);
    let mut t = Toon::new();
    let _ = t.field("from", source.as_str());
    assert(t.text() =~= field_text(0, "from"@, scalar(source@)));
    let _ = t.field("to", target.as_str());
    push_transfer(&mut t, bytes, duration_ms);
    push_maybe(&mut t, "mbps", mbps);
    push_verification(&mut t, v);
    t.into_string()
}

/// What the log says of a copy.
pub fn copy_record(from_host: &str, from: &str, to: &str) -> (r: String)
    ensures
        r@ == on_host(from_host@, from@) + " -> "@ + to@,
{
    let mut s = joined3(from_host, ":", from);
    s.push_str(" -> ");
    s.push_str(to);
    s
}

// ---------------------------------------------------------------------------
// ls
// ---------------------------------------------------------------------------

/// The permission bits of a mode.
pub open spec fn permission_bits(mode: u32) -> u32 {
    mode & 0o7777
}

/// The row of an entry.
pub open spec fn entry_row(e: ListView) -> Seq<Seq<char>> {
    seq![
        e.name,
        e.kind,
        decimal(e.size as nat),
        octal(permission_bits(e.mode) as nat),
        decimal(e.mtime as nat),
    ]
}

pub open spec fn entry_rows(s: Seq<ListView>) -> Seq<Seq<Seq<char>>> {
    Seq::new(s.len(), |i: int| entry_row(s[i]))
}

/// How many entries one answer holds.
pub open spec fn page_limit(limit: Option<u32>) -> nat {
    match limit {
        Some(n) => if (n as nat) < MAX_LS_ENTRIES {
            n as nat
        } else {
            MAX_LS_ENTRIES as nat
        },
        None => MAX_LS_ENTRIES as nat,
    }
}

/// Where the page ends that begins at `offset`.
pub open spec fn page_end(total: nat, offset: nat, limit: Option<u32>) -> nat {
    if offset >= total {
        offset
    } else if offset + page_limit(limit) < total {
        offset + page_limit(limit)
    } else {
        total
    }
}

/// The entries of the page that begins at `offset`.
pub open spec fn page_of(entries: Seq<ListView>, offset: nat, limit: Option<u32>) -> Seq<ListView> {
    if offset >= entries.len() {
        Seq::empty()
    } else {
        entries.subrange(offset as int, page_end(entries.len(), offset, limit) as int)
    }
}

/// The answer of `ls`.
pub open spec fn listing_text(
    host: Seq<char>,
    path: Seq<char>,
    entries: Seq<ListView>,
    offset: nat,
    limit: Option<u32>,
) -> Seq<char> {
    let page = page_of(entries, offset, limit);
    let end = page_end(entries.len(), offset, limit);
    field_text(0, "host"@, scalar(host)) + field_text(0, "path"@, scalar(path)) + field_text(
        0,
        "total"@,
        decimal(entries.len()),
    ) + field_text(0, "offset"@, decimal(offset)) + field_text(0, "returned"@, decimal(page.len()))
        + (if end < entries.len() {
        hint_text(0, "more entries; re-run with offset="@ + decimal(end))
    } else {
        Seq::empty()
    }) + table_text(
        0,
        "entries"@,
        seq!["name"@, "kind"@, "size"@, "mode"@, "mtime"@],
        entry_rows(page),
    )
}

fn row_of_entry(e: &ListEntry) -> (r: Vec<String>)
    ensures
        string_views(r@) == entry_row(e@),
{
    let mut size = String::new();
    push_decimal(&mut size, e.size);
    assert(size@ =~= decimal(e.size as nat));
    let mut mode = String::new();
    push_octal(&mut mode, e.mode & 0o7777);
    assert(mode@ =~= octal(permission_bits(e.mode) as nat));
    let mut mtime = String::new();
    push_decimal(&mut mtime, e.mtime);
    assert(mtime@ =~= decimal(e.mtime as nat));
    let mut row: Vec<String> = Vec::new();
    row.push(e.name.clone());
    row.push(e.kind.to_owned());
    row.push(size);
    row.push(mode);
    row.push(mtime);
    assert(string_views(row@) =~= entry_row(e@));
    row
}

/// The answer of `ls`: a page of a listing.
pub fn format_listing(
    host: &str,
    path: &str,
    entries: &Vec<ListEntry>,
    offset: Option<u32>,
    limit: Option<u32>,
) -> (r: String)
    ensures
        r@ == listing_text(
            host@,
            path@,
            list_views(entries@),
            match offset {
                Some(n) => n as nat,
                None => 0,
            },
            limit,
        ),
{
    let ghost all = list_views(entries@);
    let total: usize = entries.len();
    let offset: usize = match offset {
        Some(n) => n as usize,
        None => 0,
    };
    let most: usize = match limit {
        Some(n) => if (n as usize) < MAX_LS_ENTRIES {
            n as usize
        } else {
            MAX_LS_ENTRIES
        },
        None => MAX_LS_ENTRIES,
    };
    let end: usize = if offset >= total {
        offset
    } else if most < total - offset {
        offset + most
    } else {
        total
    };
    assert(end == page_end(total as nat, offset as nat, limit));
    let ghost page = page_of(all, offset as nat, limit);
    let mut rows: Vec<Vec<String>> = Vec::new();
    let mut i: usize = offset;
    assert(row_views(rows@) =~= entry_rows(page).take(0));
    while i < end
        invariant
            offset <= i <= end,
            offset < end ==> end <= entries@.len(),
            all == list_views(entries@),
            page.len() == end - offset,
            offset < end ==> page == all.subrange(offset as int, end as int),
            row_views(rows@) == entry_rows(page).take(i - offset),
        decreases end - i,
    {
        let row = row_of_entry(&entries[i]);
        let ghost before = row_views(rows@);
        let ghost cells = string_views(row@);
        rows.push(row);
        proof {
            assert(page[i - offset] == entries@[i as int]@);
            assert(row_views(rows@) =~= before.push(cells));
            assert(entry_rows(page).take(i - offset + 1) =~= entry_rows(page).take(
                i - offset,
            ).push(cells));
        }
        i = i + 1;
    }
    assert(row_views(rows@) =~= entry_rows(page));
    let mut t = Toon::new();
    let _ = t.field("host", host);
    assert(t.text() =~= field_text(0, "host"@, scalar(host@)));
    let _ = t.field("path", path);
    let _ = t.field("total", total);
    let _ = t.field("offset", offset);
    let _ = t.field("returned", end - offset);
    let ghost before = t.text();
    if end < total {
        let mut m = "more entries; re-run with offset=".to_owned();
        push_decimal(&mut m, end as u64);
        let _ = t.hint(m.as_str());
    } else {
        assert(before + Seq::<char>::empty() =~= before);
    }
    let cols: [&str; 5] = ["name", "kind", "size", "mode", "mtime"];
    assert(str_views(cols@) =~= seq!["name"@, "kind"@, "size"@, "mode"@, "mtime"@]);
    let _ = t.table_strs("entries", &cols, rows.as_slice());
    t.into_string()
}

/// Following the hint walks the whole listing: a page holds what comes next, and
/// the rest begins where the page ends. A page that asks for at least one entry
/// gets one.
pub proof fn law_pages_follow_each_other(entries: Seq<ListView>, offset: nat, limit: Option<u32>)
    requires
        offset < entries.len(),
    ensures
        entries.skip(offset as int) == page_of(entries, offset, limit) + entries.skip(
            page_end(entries.len(), offset, limit) as int,
        ),
        page_limit(limit) > 0 ==> page_end(entries.len(), offset, limit) > offset,
        page_of(entries, offset, limit).len() <= MAX_LS_ENTRIES,
{
    assert(entries.skip(offset as int) =~= page_of(entries, offset, limit) + entries.skip(
        page_end(entries.len(), offset, limit) as int,
    ));
}

// ---------------------------------------------------------------------------
// wr, mkdir, rm, stat
// ---------------------------------------------------------------------------

pub open spec fn too_large_to_write(len: nat) -> Seq<char> {
    "content too large: "@ + decimal(len) + " bytes (max "@ + decimal(MAX_WRITE_INLINE_BYTES as nat)
        + " — use `up` for larger files)"@
}

/// Refuses content that should go through `up`.
pub fn check_write(content: &str) -> (r: Result<()>)
    ensures
        match r {
            Ok(_) => bytes_of(content@).len() <= MAX_WRITE_INLINE_BYTES,
            Err(e) => bytes_of(content@).len() > MAX_WRITE_INLINE_BYTES && e is Config
                && e->Config_0@ == too_large_to_write(bytes_of(content@).len()),
        },
{
    let n: usize = content.as_bytes().len();
    if n > MAX_WRITE_INLINE_BYTES {
        let mut m = "content too large: ".to_owned();
        push_decimal(&mut m, n as u64);
        m.push_str(" bytes (max ");
        push_decimal(&mut m, MAX_WRITE_INLINE_BYTES as u64);
        m.push_str(" — use `up` for larger files)");
        return Err(SshError::Config(m));
    }
    Ok(())
}

pub open spec fn mode_text(mode: Option<u32>) -> Option<Seq<char>> {
    match mode {
        Some(m) => Some(octal(m as nat)),
        None => None,
    }
}

/// The answer of `wr`.
pub open spec fn write_text(
    host: Seq<char>,
    remote: Seq<char>,
    bytes: nat,
    duration_ms: u128,
    mode: Option<u32>,
) -> Seq<char> {
    field_text(0, "host"@, scalar(host)) + field_text(0, "remote"@, scalar(remote))
        + transfer_text(bytes, duration_ms) + maybe_field("mode"@, mode_text(mode))
}

fn octal_string(n: u32) -> (r: String)
    ensures
        r@ == octal(n as nat),
{
    let mut s = String::new();
    push_octal(&mut s, n);
    assert(s@ =~= octal(n as nat));
    s
}

/// The answer of `wr`.
pub fn format_write(
    host: &str,
    remote: &str,
    bytes: usize,
    duration_ms: u128,
    mode: Option<u32>,
) -> (r: String)
    ensures
        r@ == write_text(host@, remote@, bytes as nat, duration_ms, mode),
{
    let mut t = Toon::new();
    let _ = t.field("host", host);
    assert(t.text() =~= field_text(0, "host"@, scalar(host@)));
    let _ = t.field("remote", remote);
    push_transfer(&mut t, bytes, duration_ms);
    match mode {
        Some(m) => {
            let s = octal_string(m);
            push_maybe(&mut t, "mode", Some(s.as_str()));
        },
        None => {
            push_maybe(&mut t, "mode", None);
        },
    }
    t.into_string()
}

/// The answer of `mkdir`.
pub fn format_mkdir(host: &str, path: &str) -> (r: String)
    ensures
        r@ == field_text(0, "host"@, scalar(host@)) + field_text(0, "path"@, scalar(path@))
            + field_text(0, "status"@, scalar("created"@)),
{
    let mut t = Toon::new();
    let _ = t.field("host", host);
    assert(t.text() =~= field_text(0, "host"@, scalar(host@)));
    let _ = t.field("path", path);
    let _ = t.field("status", "created");
    t.into_string()
}

/// What the user is asked before a recursive removal.
pub open spec fn rm_question(host: Seq<char>, path: Seq<char>) -> Seq<char> {
    "fast-mcp-ssh wants to recursively delete '"@ + path + "' on host '"@ + host
        + "'. Reply 'yes' to proceed."@
}

/// What the user is asked before a recursive removal.
pub fn rm_prompt(host: &str, path: &str) -> (r: String)
    ensures
        r@ == rm_question(host@, path@),
{
    let mut s = joined3("fast-mcp-ssh wants to recursively delete '", path, "' on host '");
    s.push_str(host);
    s.push_str("'. Reply 'yes' to proceed.");
    s
}

/// Whether a removal may go on.
#[derive(Debug)]
pub enum RmGate {
    Go,
    /// The user has to be asked now; the answer goes to [`settle_rm`].
    Ask { prompt: String },
    /// The question waits for the client, which calls again.
    Wait,
    Refused(SshError),
}

/// The key of the question about a removal.
pub open spec fn rm_key(host: Seq<char>, path: Seq<char>) -> Seq<char> {
    key_text(seq![bytes_of("rm"@), bytes_of(host), bytes_of(path)])
}

/// What an answer means for a removal: any but a yes refuses it.
pub open spec fn rm_settled(r: RmGate, answer: Answer) -> bool {
    match answer {
        Answer::Approved => r is Go,
        Answer::Denied => r is Refused && r->Refused_0 is ConfirmationDenied,
        Answer::Deferred => r is Wait,
    }
}

/// What an answer means for a removal.
pub fn settle_rm(answer: Answer) -> (r: RmGate)
    ensures
        rm_settled(r, answer),
{
    match answer {
        Answer::Approved => RmGate::Go,
        Answer::Denied => RmGate::Refused(SshError::ConfirmationDenied),
        Answer::Deferred => RmGate::Wait,
    }
}

/// Asks before a removal that is recursive. No other needs a yes.
pub fn guard_rm(confirm: &mut Confirm, host: &str, path: &str, recursive: bool) -> (r: RmGate)
    ensures
        final(confirm).is_multi_round() == old(confirm).is_multi_round(),
        final(confirm).replies() == old(confirm).replies(),
        ({
            let key = rm_key(host@, path@);
            let answer = match known_answer(old(confirm).replies(), key) {
                Some(a) => a,
                None => Answer::Deferred,
            };
            if !recursive {
                &&& r is Go
                &&& final(confirm).queue() == old(confirm).queue()
            } else if !old(confirm).is_multi_round() {
                &&& r is Ask && r->prompt@ == rm_question(host@, path@)
                &&& final(confirm).queue() == old(confirm).queue()
            } else {
                &&& rm_settled(r, answer)
                &&& final(confirm).queue() == (if answer == Answer::Deferred && !is_queued(
                    old(confirm).queue(),
                    key,
                ) {
                    old(confirm).queue().push((key, rm_question(host@, path@)))
                } else {
                    old(confirm).queue()
                })
            }
        }),
{
    if !recursive {
        return RmGate::Go;
    }
    let prompt = rm_prompt(host, path);
    let parts: [&str; 3] = ["rm", host, path];
    let key = key_for(&parts);
    assert(byte_views(parts@) =~= seq![bytes_of("rm"@), bytes_of(host@), bytes_of(path@)]);
    match confirm.ask(key.as_str(), prompt.as_str()) {
        Ask::Elicit => RmGate::Ask { prompt },
        Ask::Known(answer) => settle_rm(answer),
    }
}

/// The answer of `rm`.
pub fn format_rm(host: &str, path: &str, removed: u64) -> (r: String)
    ensures
        r@ == field_text(0, "host"@, scalar(host@)) + field_text(0, "path"@, scalar(path@))
            + field_text(0, "removed"@, decimal(removed as nat)),
{
    let mut t = Toon::new();
    let _ = t.field("host", host);
    assert(t.text() =~= field_text(0, "host"@, scalar(host@)));
    let _ = t.field("path", path);
    let _ = t.field("removed", removed);
    t.into_string()
}

/// The answer of `stat`.
pub open spec fn stat_text(host: Seq<char>, path: Seq<char>, s: StatEntry) -> Seq<char> {
    field_text(0, "host"@, scalar(host)) + field_text(0, "path"@, scalar(path)) + field_text(
        0,
        "kind"@,
        scalar(s.kind@),
    ) + field_text(0, "size"@, decimal(s.size as nat)) + field_text(
        0,
        "mode"@,
        scalar(octal(permission_bits(s.mode) as nat)),
    ) + field_text(0, "mtime"@, decimal(s.mtime as nat)) + field_text(
        0,
        "uid"@,
        decimal(s.uid as nat),
    ) + field_text(0, "gid"@, decimal(s.gid as nat)) + maybe_field("target"@, opt_view(s.target))
}

/// The answer of `stat`.
pub fn format_stat(host: &str, path: &str, s: &StatEntry) -> (r: String)
    ensures
        r@ == stat_text(host@, path@, *s),
{
    let mode = octal_string(s.mode & 0o7777);
    let mut t = Toon::new();
    let _ = t.field("host", host);
    assert(t.text() =~= field_text(0, "host"@, scalar(host@)));
    let _ = t.field("path", path);
    let _ = t.field("kind", s.kind);
    let _ = t.field("size", s.size);
    let _ = t.field("mode", mode.as_str());
    let _ = t.field("mtime", s.mtime);
    let _ = t.field("uid", s.uid as u64);
    let _ = t.field("gid", s.gid as u64);
    match &s.target {
        Some(p) => push_maybe(&mut t, "target", Some(p.as_str())),
        None => push_maybe(&mut t, "target", None),
    }
    t.into_string()
}

// ---------------------------------------------------------------------------
// tail
// ---------------------------------------------------------------------------

/// How many lines `tail` reads.
pub fn tail_lines(lines: Option<u32>) -> (r: u32)
    ensures
        r == (match lines {
            Some(n) => n,
            None => 100,
        }),
{
    match lines {
        Some(n) => n,
        None => 100,
    }
}

/// How many seconds `tail` follows a file.
pub fn follow_secs(seconds: Option<u64>) -> (r: u64)
    ensures
        r == (match seconds {
            None => 5,
            Some(n) => if n < 1 {
                1
            } else if n > MAX_FOLLOW_SECS {
                MAX_FOLLOW_SECS
            } else {
                n
            },
        }),
        1 <= r <= MAX_FOLLOW_SECS,
{
    match seconds {
        None => 5,
        Some(n) => if n < 1 {
            1
        } else if n > MAX_FOLLOW_SECS {
            MAX_FOLLOW_SECS
        } else {
            n
        },
    }
}

/// The answer of `tail`.
pub open spec fn tail_answer(
    host: Seq<char>,
    path: Seq<char>,
    c: TailChunk,
    follow: bool,
    truncate: nat,
) -> Seq<char> {
    let text = bytes_of(c.content@);
    field_text(0, "host"@, scalar(host)) + field_text(0, "path"@, scalar(path)) + field_text(
        0,
        "bytes"@,
        decimal(c.bytes as nat),
    ) + field_text(
        0,
        "follow"@,
        if follow {
            "true"@
        } else {
            "false"@
        },
    ) + (if text.len() > truncate {
        field_text(0, "truncated_bytes"@, decimal(text.len()))
    } else {
        Seq::empty()
    }) + block_text(
        0,
        "content"@,
        displayed(text, Seq::empty(), text.len() as int, truncate as int),
    )
}

/// The answer of `tail`.
pub fn format_tail(host: &str, path: &str, c: &TailChunk, follow: bool, truncate: usize) -> (r:
    String)
    ensures
        r@ == tail_answer(host@, path@, *c, follow, truncate as nat),
{
    let mut t = Toon::new();
    let _ = t.field("host", host);
    assert(t.text() =~= field_text(0, "host"@, scalar(host@)));
    let _ = t.field("path", path);
    let _ = t.field("bytes", c.bytes);
    let _ = t.field("follow", follow);
    let size: usize = c.content.as_str().as_bytes().len();
    let (display, total) = truncate_with_hint(c.content.as_str(), truncate);
    let ghost before = t.text();
    match total {
        Some(n) => {
            assert(n == size);
            let _ = t.field("truncated_bytes", n);
        },
        None => {
            assert(before + Seq::<char>::empty() =~= before);
        },
    }
    let display = shown(display);
    let _ = t.block("content", display.as_str());
    t.into_string()
}

// ---------------------------------------------------------------------------
// Laws on answers
// ---------------------------------------------------------------------------

/// A text file comes back as its text, in whichever script it is written, where
/// it fits the display.
pub proof fn law_downloaded_text_comes_back(s: Seq<char>, local: Option<Seq<char>>, truncate: nat)
    requires
        forall|i: int|
            0 <= i < s.len() ==> #[trigger] s[i] >= ' ' || s[i] == '\n' || s[i] == '\r' || s[i]
                == '\t',
        bytes_of(s).len() <= truncate,
    ensures
        delivery_text(Some(bytes_of(s)), local, truncate) == block_text(0, "content"@, s),
{
    law_printable_text_is_text(s);
    law_what_fits_is_shown_whole(s, truncate as int);
    vstd::utf8::encode_utf8_valid_utf8(s);
    vstd::utf8::encode_utf8_decode_utf8(s);
}

/// A file that is no text comes back in base64, and says so.
pub proof fn law_downloaded_bytes_come_in_base64(
    bytes: Seq<u8>,
    local: Option<Seq<char>>,
    truncate: nat,
)
    requires
        bytes.contains(0) || !vstd::utf8::valid_utf8(bytes),
    ensures
        delivery_text(Some(bytes), local, truncate) == field_text(
            0,
            "encoding"@,
            scalar("base64"@),
        ) + block_text(0, "content"@, base64_of(bytes)),
{
    law_raw_bytes_are_binary(bytes);
    if bytes.len() == 0 {
        assert(bytes =~= Seq::empty());
    }
}

/// The digest is the first word that the command printed, where it is as long as
/// one; a command that failed has none.
pub proof fn law_digest_is_the_first_word(digest: Seq<char>, rest: Seq<char>, code: i32)
    requires
        bytes_of(digest).len() == 64,
        forall|i: int| 0 <= i < digest.len() ==> !is_space(#[trigger] digest[i]),
    ensures
        digest_of(0, digest.push(' ') + rest) == core::result::Result::<Seq<char>, Seq<char>>::Ok(
            digest,
        ),
        code != 0 ==> digest_of(code, digest.push(' ') + rest) is Err,
{
    if digest.len() == 0 {
        assert(bytes_of(digest) =~= Seq::empty());
    }
    law_white_space();
    law_words_are_between_spaces(digest, ' ', rest);
}

/// The mode that is shown is the one that `chmod` takes: the permission bits,
/// without the file type.
pub proof fn law_shown_mode_is_the_permissions(kind: u32, bits: u32)
    requires
        bits <= 0o7777,
        kind & 0o7777 == 0,
    ensures
        permission_bits(kind | bits) == bits,
{
    assert((kind | bits) & 0o7777u32 == bits) by (bit_vector)
        requires
            bits <= 0o7777u32,
            kind & 0o7777u32 == 0,
    ;
}

/// A listing that one answer can hold comes back whole.
pub proof fn law_short_listing_is_one_page(entries: Seq<ListView>)
    requires
        entries.len() <= 1000,
    ensures
        page_of(entries, 0, None) == entries,
        page_end(entries.len(), 0, None) == entries.len(),
{
    assert(page_of(entries, 0, None) =~= entries);
}

/// The row of an entry shows its name, kind, size, permissions and time, each as
/// it is.
pub proof fn law_row_shows_the_entry(e: ListView)
    ensures
        entry_row(e).len() == 5,
        entry_row(e)[0] == e.name,
        entry_row(e)[1] == e.kind,
        digits_value(entry_row(e)[2]) == e.size,
        octal_value(entry_row(e)[3]) == permission_bits(e.mode),
        digits_value(entry_row(e)[4]) == e.mtime,
{
    law_decimal_reads_back(e.size as nat);
    law_octal_reads_back(permission_bits(e.mode) as nat);
    law_decimal_reads_back(e.mtime as nat);
}

/// The pages of a listing follow one another: each begins where the one before it
/// ended, none is longer than was asked for, and none is empty before the end.
pub proof fn law_pages_follow_one_another(
    entries: Seq<ListView>,
    offset: nat,
    limit: Option<u32>,
)
    requires
        offset < entries.len(),
        limit != Some(0u32),
    ensures
        ({
            let end = page_end(entries.len(), offset, limit);
            &&& offset < end <= entries.len()
            &&& page_of(entries, offset, limit).len() == end - offset
            &&& entries.take(offset as int) + page_of(entries, offset, limit) == entries.take(
                end as int,
            )
            &&& limit matches Some(n) ==> 1 <= n <= 1000 ==> page_of(entries, offset, limit).len()
                <= n
            &&& limit matches Some(n) ==> 1 <= n <= 1000 && end < entries.len() ==> end == offset
                + n
        }),
{
    let end = page_end(entries.len(), offset, limit);
    assert(entries.take(offset as int) + page_of(entries, offset, limit) =~= entries.take(
        end as int,
    ));
}

/// Who is asked about a removal sees what would go and where.
pub proof fn law_removal_question_names_the_path(host: Seq<char>, path: Seq<char>)
    ensures
        has_part(rm_question(host, path), path),
        has_part(rm_question(host, path), host),
{
    let a = "fast-mcp-ssh wants to recursively delete '"@;
    let b = "' on host '"@;
    let c = "'. Reply 'yes' to proceed."@;
    lemma_has_part(a, path, b + host + c);
    assert(rm_question(host, path) =~= a + path + (b + host + c));
    lemma_has_part(a + path + b, host, c);
}

/// A copy whose digests differ is told both, each with its host.
pub proof fn law_mismatch_shows_both_digests(
    from_host: Seq<char>,
    a: Seq<char>,
    to_host: Seq<char>,
    b: Seq<char>,
)
    ensures
        has_part(mismatch_text(from_host, a, to_host, b), from_host + " "@ + a),
        has_suffix(mismatch_text(from_host, a, to_host, b), to_host + " "@ + b),
{
    let all = mismatch_text(from_host, a, to_host, b);
    let head = "sha256 mismatch: "@;
    let rest = ", "@ + to_host + " "@ + b;
    assert(all =~= head + (from_host + " "@ + a) + rest);
    lemma_has_part(head, from_host + " "@ + a, rest);
    let last = to_host + " "@ + b;
    assert(all.skip(all.len() - last.len()) =~= last);
}

/// A removal goes on only after a yes.
pub proof fn law_only_a_yes_removes(r: RmGate, answer: Answer)
    requires
        rm_settled(r, answer),
    ensures
        r is Go <==> answer is Approved,
        r is Refused <==> answer is Denied,
        r is Wait <==> answer is Deferred,
{
}

} // verus!

//! Visual tools: `shot`.
//!
//! A screenshot is the one remote observation that cannot be reduced to text,
//! and it is also the most expensive thing to put in front of a model. So the
//! capture is downscaled and re-encoded before it becomes an image block, and
//! `local=` writes the untouched original to disk instead of returning it at
//! all.

use vstd::prelude::*;
use vstd::string::*;

use crate::audit::{blank, AuditRecord, RecordView};
use crate::errors::{Result, SshError};
use crate::output::toon::{field_text, scalar, Toon};
use crate::session::pty::system_random;
use crate::text::{
    chars_of, decimal, has_prefix, hex_bound, hex_digit, hex_padded, hex_value, joined2, joined3,
    law_hex_reads_back, push_signed, signed_decimal, trim, trimmed,
};
use crate::tools::files::{base64_of, base64_text};
use crate::tools::ops::{has_tool, HostFacts};
use crate::tools::{law_shell_reads_quoted_word_back, quoted_word, sh_word, shell_quote, str_view};

verus! {

/// Widest image handed back to the model unless the caller says otherwise.
/// Image tokens scale with area, so halving this quarters the cost; 1024 is
/// about where a desktop is still readable.
pub const DEFAULT_MAX_WIDTH: u32 = 1024;

pub const MAX_MAX_WIDTH: u32 = 3840;

pub const DEFAULT_QUALITY: u8 = 75;

/// Refuse a capture that arrives absurdly large rather than spend a minute
/// decoding it. A 4K PNG screenshot lands around 10 MB.
pub const MAX_CAPTURE_BYTES: usize = 67108864;

#[derive(Debug, Clone, Copy, PartialEq, Eq, Structural)]
pub enum ShotFormat {
    /// Lossy, small. The default, and what a screenshot should be.
    Jpeg,
    /// Lossless, several times larger. For pixel-exact reads.
    Png,
}

// ---------------------------------------------------------------------------
// Backends
// ---------------------------------------------------------------------------

/// A capture backend.
#[derive(Debug, Clone, Copy)]
pub struct Backend {
    pub bin: &'static str,
    /// The command; `{}` is the output path, already shell-quoted.
    pub template: &'static str,
    /// Whether it needs an X11 DISPLAY.
    pub needs_display: bool,
}

#[verifier::ext_equal]
pub struct BackendView {
    pub bin: Seq<char>,
    pub template: Seq<char>,
    pub needs_display: bool,
}

impl View for Backend {
    type V = BackendView;

    open spec fn view(&self) -> BackendView {
        BackendView {
            bin: self.bin@,
            template: self.template@,
            needs_display: self.needs_display,
        }
    }
}

/// The backends, in the order they are tried.
pub open spec fn backend_list() -> Seq<BackendView> {
    seq![
        BackendView { bin: "grim"@, template: "grim -t png {}"@, needs_display: false },
        BackendView {
            bin: "gnome-screenshot"@,
            template: "gnome-screenshot -f {}"@,
            needs_display: true,
        },
        BackendView { bin: "spectacle"@, template: "spectacle -b -n -o {}"@, needs_display: true },
        BackendView { bin: "import"@, template: "import -window root {}"@, needs_display: true },
        BackendView { bin: "scrot"@, template: "scrot -o {}"@, needs_display: true },
    ]
}

pub open spec fn backend_views(s: Seq<Backend>) -> Seq<BackendView> {
    Seq::new(s.len(), |i: int| s[i]@)
}

/// The backends, in the order they are tried.
pub fn backends() -> (r: Vec<Backend>)
    ensures
        backend_views(r@) == backend_list(),
{
    let mut v: Vec<Backend> = Vec::new();
    // Wayland/wlroots. Reads WAYLAND_DISPLAY, not DISPLAY.
    v.push(Backend { bin: "grim", template: "grim -t png {}", needs_display: false });
    v.push(
        Backend {
            bin: "gnome-screenshot",
            template: "gnome-screenshot -f {}",
            needs_display: true,
        },
    );
    v.push(Backend { bin: "spectacle", template: "spectacle -b -n -o {}", needs_display: true });
    // ImageMagick. `import` is also the name of a Python tool, but the probe
    // only ever sees the one on PATH of a desktop session.
    v.push(Backend { bin: "import", template: "import -window root {}", needs_display: true });
    v.push(Backend { bin: "scrot", template: "scrot -o {}", needs_display: true });
    assert(backend_views(v@) =~= backend_list());
    v
}

/// The first backend that a host has.
pub open spec fn first_backend(
    list: Seq<BackendView>,
    facts: Seq<(Seq<char>, Seq<char>)>,
) -> Option<BackendView>
    decreases list.len(),
{
    if list.len() == 0 {
        None
    } else if has_tool(facts, list[0].bin) {
        Some(list[0])
    } else {
        first_backend(list.skip(1), facts)
    }
}

pub open spec fn no_backend_text(host: Seq<char>) -> Seq<char> {
    "no screenshot backend on "@ + host
        + ": none of grim, gnome-screenshot, spectacle, import, scrot are installed"@
}

/// The first backend that a host has.
pub fn choose_backend(host: &str, facts: &HostFacts) -> (r: Result<Backend>)
    ensures
        match r {
            Ok(b) => first_backend(backend_list(), facts.pairs()) == Some(b@),
            Err(e) => first_backend(backend_list(), facts.pairs()) is None && e is Other
                && e->Other_0@ == no_backend_text(host@),
        },
{
    let list = backends();
    let ghost all = backend_views(list@);
    let mut i: usize = 0;
    assert(all.skip(0) =~= all);
    while i < list.len()
        invariant
            i <= list@.len(),
            all == backend_views(list@),
            all == backend_list(),
            first_backend(all.skip(i as int), facts.pairs()) == first_backend(all, facts.pairs()),
        decreases list@.len() - i,
    {
        proof {
            assert(all.skip(i as int)[0] == list@[i as int]@);
            assert(all.skip(i as int).skip(1) =~= all.skip(i + 1));
        }
        if facts.has(list[i].bin) {
            return Ok(list[i]);
        }
        i = i + 1;
    }
    Err(
        SshError::Other(
            joined3(
                "no screenshot backend on ",
                host,
                ": none of grim, gnome-screenshot, spectacle, import, scrot are installed",
            ),
        ),
    )
}

// ---------------------------------------------------------------------------
// The capture
// ---------------------------------------------------------------------------

/// `n` bytes of a number in hex, the lowest first.
pub open spec fn low_bytes_hex(x: nat, n: nat) -> Seq<char>
    decreases n,
{
    if n == 0 {
        Seq::empty()
    } else {
        hex_padded(x % 256, 2) + low_bytes_hex(x / 256, (n - 1) as nat)
    }
}

/// The nonce that a number stands for.
pub open spec fn nonce_text(x: u64) -> Seq<char> {
    low_bytes_hex(x as nat, 8)
}

fn nibble(d: u64) -> (c: char)
    requires
        d < 16,
    ensures
        c == hex_digit(d as nat),
{
    if d < 10 {
        (48 + d as u8) as char
    } else {
        (87 + d as u8) as char
    }
}

/// The nonce that a number stands for.
pub fn nonce_of(x: u64) -> (r: String)
    ensures
        r@ == nonce_text(x),
{
    let mut out = String::new();
    let mut rest: u64 = x;
    let mut k: usize = 8;
    assert(out@ + low_bytes_hex(x as nat, 8) =~= nonce_text(x));
    while k > 0
        invariant
            k <= 8,
            out@ + low_bytes_hex(rest as nat, k as nat) == nonce_text(x),
        decreases k,
    {
        let b: u64 = rest % 256;
        let ghost before = out@;
        out.push(nibble(b / 16));
        out.push(nibble(b % 16));
        proof {
            reveal_with_fuel(hex_padded, 3);
            let h = hex_padded(b as nat, 2);
            assert((b as nat) / 16 % 16 == (b as nat) / 16);
            assert(h =~= seq![hex_digit((b / 16) as nat), hex_digit((b % 16) as nat)]);
            assert(out@ =~= before + h);
            assert(before + (h + low_bytes_hex(rest as nat / 256, (k - 1) as nat)) =~= out@
                + low_bytes_hex(rest as nat / 256, (k - 1) as nat));
        }
        rest = rest / 256;
        k = k - 1;
    }
    assert(out@ =~= nonce_text(x));
    out
}

/// The nonce that a draw from the system's randomness gives: the number that was
/// drawn, and the clock only where nothing could be drawn.
pub fn nonce_from(draw: core::result::Result<u64, String>, clock: u64) -> (r: String)
    ensures
        r@ == (match draw {
            Ok(n) => nonce_text(n),
            Err(_) => nonce_text(clock),
        }),
{
    match draw {
        Ok(n) => nonce_of(n),
        Err(_) => nonce_of(clock),
    }
}

/// Hex nonce for the remote temp path, so two concurrent `shot` calls on one
/// host cannot overwrite each other's capture. `clock` is used only if the OS
/// entropy source is unavailable; a collision costs a retry, not correctness.
pub fn nonce(clock: u64) -> (r: String)
    ensures
        exists|n: u64| r@ == #[trigger] nonce_text(n),
{
    nonce_from(system_random(), clock)
}

pub open spec fn capture_file(nonce: Seq<char>) -> Seq<char> {
    "/tmp/.fast-mcp-ssh-shot-"@ + nonce + ".png"@
}

/// Where a capture goes on the host: a private temp file rather than stdout,
/// since half of the backends refuse an output that is not seekable, and the
/// others interleave their own warnings into it.
pub fn capture_path(nonce: &str) -> (r: String)
    ensures
        r@ == capture_file(nonce@),
{
    joined3("/tmp/.fast-mcp-ssh-shot-", nonce, ".png")
}

/// `s` with each `p` replaced by `q`.
pub open spec fn replaced(s: Seq<char>, p: Seq<char>, q: Seq<char>) -> Seq<char>
    decreases s.len(),
{
    if s.len() == 0 {
        Seq::empty()
    } else if p.len() > 0 && has_prefix(s, p) {
        q + replaced(s.skip(p.len() as int), p, q)
    } else {
        seq![s[0]] + replaced(s.skip(1), p, q)
    }
}

/// `s` with each pair of braces replaced by `q`.
fn fill_slots(s: &str, q: &str) -> (r: String)
    ensures
        r@ == replaced(s@, "{}"@, q@),
{
    let v = chars_of(s);
    let n: usize = v.len();
    let mut out = String::new();
    let mut i: usize = 0;
    proof {
        reveal_strlit("{}");
        assert(v@.skip(0) =~= v@);
        assert(out@ + replaced(v@, "{}"@, q@) =~= replaced(s@, "{}"@, q@));
    }
    while i < n
        invariant
            v@ == s@,
            n == v@.len(),
            i <= n,
            "{}"@.len() == 2,
            "{}"@[0] == '{',
            "{}"@[1] == '}',
            out@ + replaced(v@.skip(i as int), "{}"@, q@) == replaced(s@, "{}"@, q@),
        decreases n - i,
    {
        let ghost rest = v@.skip(i as int);
        let ghost before = out@;
        let slot = v[i] == '{' && i + 1 < n && v[i + 1] == '}';
        proof {
            if slot {
                assert(rest.take(2) =~= "{}"@);
            } else if has_prefix(rest, "{}"@) {
                assert(rest.take(2)[0] == '{' && rest.take(2)[1] == '}');
            }
        }
        if slot {
            out.push_str(q);
            proof {
                assert(rest.skip(2) =~= v@.skip(i + 2));
                assert(before + (q@ + replaced(rest.skip(2), "{}"@, q@)) =~= out@ + replaced(
                    rest.skip(2),
                    "{}"@,
                    q@,
                ));
            }
            i = i + 2;
        } else {
            out.push(v[i]);
            proof {
                assert(rest.skip(1) =~= v@.skip(i + 1));
                assert(before + (seq![rest[0]] + replaced(rest.skip(1), "{}"@, q@)) =~= out@
                    + replaced(rest.skip(1), "{}"@, q@));
            }
            i = i + 1;
        }
    }
    proof {
        assert(v@.skip(i as int).len() == 0);
        assert(out@ =~= replaced(s@, "{}"@, q@));
    }
    out
}

/// The command that captures the screen.
pub open spec fn capture_text(b: BackendView, path: Seq<char>, display: Option<Seq<char>>) -> Seq<
    char,
> {
    (if b.needs_display {
        "DISPLAY="@ + quoted_word(
            match display {
                Some(d) => d,
                None => ":0"@,
            },
        ) + " "@
    } else {
        "XDG_RUNTIME_DIR=${XDG_RUNTIME_DIR:-/run/user/$(id -u)} "@
    }) + replaced(b.template, "{}"@, quoted_word(path))
}

/// The command that captures the screen. wlroots compositors want the runtime
/// dir, which a non-login SSH session does not inherit.
pub fn capture_command(b: &Backend, path: &str, display: Option<&str>) -> (r: String)
    ensures
        r@ == capture_text(b@, path@, str_view(display)),
{
    let mut s = if b.needs_display {
        let d = shell_quote(
            match display {
                Some(d) => d,
                None => ":0",
            },
        );
        joined3("DISPLAY=", d.as_str(), " ")
    } else {
        "XDG_RUNTIME_DIR=${XDG_RUNTIME_DIR:-/run/user/$(id -u)} ".to_owned()
    };
    let quoted = shell_quote(path);
    let body = fill_slots(b.template, quoted.as_str());
    s.push_str(body.as_str());
    s
}

pub open spec fn capture_fault(
    bin: Seq<char>,
    host: Seq<char>,
    exit_code: i32,
    stderr: Seq<char>,
) -> Seq<char> {
    bin + " failed on "@ + host + " (exit "@ + signed_decimal(exit_code as int) + "): "@ + trimmed(
        stderr,
    )
}

/// The error of a backend that failed.
pub fn capture_failed(bin: &str, host: &str, exit_code: i32, stderr: &str) -> (e: SshError)
    ensures
        e is Other,
        e->Other_0@ == capture_fault(bin@, host@, exit_code, stderr@),
{
    let mut m = joined3(bin, " failed on ", host);
    m.push_str(" (exit ");
    push_signed(&mut m, exit_code as i64);
    m.push_str("): ");
    let why = trim(stderr);
    m.push_str(why.as_str());
    SshError::Other(m)
}

// ---------------------------------------------------------------------------
// Downscaling
// ---------------------------------------------------------------------------

/// The widest image that is returned.
pub open spec fn clamped_width(max_width: Option<u32>) -> u32 {
    match max_width {
        None => DEFAULT_MAX_WIDTH,
        Some(n) => if n < 16 {
            16
        } else if n > MAX_MAX_WIDTH {
            MAX_MAX_WIDTH
        } else {
            n
        },
    }
}

/// The widest image that is returned.
pub fn shot_width(max_width: Option<u32>) -> (r: u32)
    ensures
        r == clamped_width(max_width),
{
    match max_width {
        None => DEFAULT_MAX_WIDTH,
        Some(n) => if n < 16 {
            16
        } else if n > MAX_MAX_WIDTH {
            MAX_MAX_WIDTH
        } else {
            n
        },
    }
}

/// The JPEG quality that is used.
pub open spec fn clamped_quality(quality: Option<u8>) -> u8 {
    match quality {
        None => DEFAULT_QUALITY,
        Some(n) => if n < 1 {
            1
        } else if n > 100 {
            100
        } else {
            n
        },
    }
}

/// The JPEG quality that is used.
pub fn shot_quality(quality: Option<u8>) -> (r: u8)
    ensures
        r == clamped_quality(quality),
{
    match quality {
        None => DEFAULT_QUALITY,
        Some(n) => if n < 1 {
            1
        } else if n > 100 {
            100
        } else {
            n
        },
    }
}

/// The size that an image is returned at: it fits the width, keeps its aspect
/// and is never made larger.
pub open spec fn fitted(width: nat, height: nat, max_width: nat) -> (nat, nat) {
    if width > max_width {
        let h = (height * max_width) / width;
        (
            max_width,
            if h < 1 {
                1
            } else {
                h
            },
        )
    } else {
        (width, height)
    }
}

/// The size that an image is returned at.
pub fn fit(width: u32, height: u32, max_width: u32) -> (r: (u32, u32))
    ensures
        (r.0 as nat, r.1 as nat) == fitted(width as nat, height as nat, max_width as nat),
{
    if width > max_width {
        proof {
            lemma_scaled(width as int, height as int, max_width as int);
            assert(height * max_width <= u64::MAX) by (nonlinear_arith)
                requires
                    height <= u32::MAX,
                    max_width <= u32::MAX,
            ;
        }
        let h: u64 = (height as u64 * max_width as u64) / width as u64;
        (
            max_width,
            if h < 1 {
                1
            } else {
                h as u32
            },
        )
    } else {
        (width, height)
    }
}

proof fn lemma_scaled(width: int, height: int, max_width: int)
    requires
        0 <= max_width < width,
        0 <= height,
    ensures
        0 <= (height * max_width) / width <= height,
        (height * max_width) - width < ((height * max_width) / width) * width <= height * max_width,
{
    let p = height * max_width;
    assert(0 <= p <= height * width) by (nonlinear_arith)
        requires
            p == height * max_width,
            0 <= max_width < width,
            0 <= height,
    ;
    vstd::arithmetic::div_mod::lemma_fundamental_div_mod(p, width);
    let q = p / width;
    assert(width * q == q * width) by (nonlinear_arith);
    assert(0 <= q <= height) by (nonlinear_arith)
        requires
            q * width <= p,
            p < q * width + width,
            0 <= p <= height * width,
            width > 0,
    ;
}

/// An image that is returned fits the width, is no larger than it was in either
/// direction, and has the height that keeps its aspect, to the pixel below.
pub proof fn law_fitted_keeps_the_aspect(width: nat, height: nat, max_width: nat)
    requires
        width > 0,
        height > 0,
    ensures
        ({
            let (w, h) = fitted(width, height, max_width);
            &&& w <= width && h <= height
            &&& w <= max_width || (w, h) == (width, height)
            &&& w == max_width && h > 1 ==> height * w < (h + 1) * width && h * width <= height * w
        }),
{
    if width > max_width {
        lemma_scaled(width as int, height as int, max_width as int);
        let h = (height * max_width) / width;
        assert((h + 1) * width == h * width + width) by (nonlinear_arith);
    } else if width == max_width {
        assert(height * width < (height + 1) * width) by (nonlinear_arith)
            requires
                width > 0,
        ;
    }
}

/// The size of the image that `image::load_from_memory` makes of a byte string,
/// or what is wrong with it.
pub uninterp spec fn image_size_of(raw: Seq<u8>) -> core::result::Result<(u32, u32), Seq<char>>;

/// What `image::DynamicImage::write_to` writes as PNG of a byte string that was
/// loaded and resized, or what is wrong with it.
pub uninterp spec fn png_of(raw: Seq<u8>, width: u32, height: u32) -> core::result::Result<
    Seq<u8>,
    Seq<char>,
>;

/// What `image::codecs::jpeg::JpegEncoder` writes of a byte string that was
/// loaded and resized, or what is wrong with it.
pub uninterp spec fn jpeg_of(
    raw: Seq<u8>,
    width: u32,
    height: u32,
    quality: u8,
) -> core::result::Result<Seq<u8>, Seq<char>>;

pub open spec fn size_view(
    r: core::result::Result<(u32, u32), String>,
) -> core::result::Result<(u32, u32), Seq<char>> {
    match r {
        Ok(x) => Ok(x),
        Err(e) => Err(e@),
    }
}

pub open spec fn data_view(r: core::result::Result<Vec<u8>, String>) -> core::result::Result<
    Seq<u8>,
    Seq<char>,
> {
    match r {
        Ok(v) => Ok(v@),
        Err(e) => Err(e@),
    }
}

/// `image::load_from_memory`, and the width and height of the image. The result
/// is named.
#[verifier::external_body]
fn image_size(raw: &[u8]) -> (r: core::result::Result<(u32, u32), String>)
    ensures
        size_view(r) == image_size_of(raw@),
{
    match image::load_from_memory(raw) {
        Ok(img) => Ok((img.width(), img.height())),
        Err(e) => Err(e.to_string()),
    }
}

/// The size is no larger than that of the image.
pub open spec fn shrinks(raw: Seq<u8>, width: u32, height: u32) -> bool {
    image_size_of(raw) matches Ok((w, h)) && width <= w && (height <= h || height == 1)
}

/// `image::DynamicImage::resize_exact` with the triangle filter, and
/// `image::DynamicImage::write_to` as PNG, on the image that
/// `image::load_from_memory` makes. The result is named. Resizing to the size
/// that an image has copies it.
#[verifier::external_body]
fn png_bytes(raw: &[u8], width: u32, height: u32) -> (r: core::result::Result<Vec<u8>, String>)
    requires
        shrinks(raw@, width, height),
    ensures
        data_view(r) == png_of(raw@, width, height),
{
    let mut data = Vec::new();
    image::load_from_memory(raw)
        .map_err(|e| e.to_string())?
        .resize_exact(width, height, image::imageops::FilterType::Triangle)
        .write_to(&mut std::io::Cursor::new(&mut data), image::ImageFormat::Png)
        .map_err(|e| e.to_string())?;
    Ok(data)
}

/// `image::DynamicImage::resize_exact` with the triangle filter,
/// `image::DynamicImage::to_rgb8` (JPEG has no alpha, and the encoder errors
/// instead of dropping it) and
/// `image::codecs::jpeg::JpegEncoder::encode_image`, on the image that
/// `image::load_from_memory` makes. The result is named. Resizing to the size
/// that an image has copies it.
#[verifier::external_body]
fn jpeg_bytes(raw: &[u8], width: u32, height: u32, quality: u8) -> (r: core::result::Result<
    Vec<u8>,
    String,
>)
    requires
        shrinks(raw@, width, height),
    ensures
        data_view(r) == jpeg_of(raw@, width, height, quality),
{
    let mut data = Vec::new();
    let rgb = image::load_from_memory(raw)
        .map_err(|e| e.to_string())?
        .resize_exact(width, height, image::imageops::FilterType::Triangle)
        .to_rgb8();
    image::codecs::jpeg::JpegEncoder::new_with_quality(std::io::Cursor::new(&mut data), quality)
        .encode_image(&rgb)
        .map_err(|e| e.to_string())?;
    Ok(data)
}

/// An image that is returned.
#[derive(Debug)]
pub struct Encoded {
    pub data: Vec<u8>,
    pub width: u32,
    pub height: u32,
}

pub open spec fn format_word(f: ShotFormat) -> Seq<char> {
    match f {
        ShotFormat::Png => "png"@,
        ShotFormat::Jpeg => "jpeg"@,
    }
}

fn word_of(f: ShotFormat) -> (r: &'static str)
    ensures
        r@ == format_word(f),
{
    match f {
        ShotFormat::Png => "png",
        ShotFormat::Jpeg => "jpeg",
    }
}

/// What comes of an encoder's result.
pub open spec fn is_encoded(
    r: Result<Encoded>,
    width: u32,
    height: u32,
    format: ShotFormat,
    data: core::result::Result<Seq<u8>, Seq<char>>,
) -> bool {
    match data {
        Ok(d) => r is Ok && r->Ok_0.data@ == d && r->Ok_0.width == width && r->Ok_0.height
            == height,
        Err(e) => r is Err && r->Err_0 is Other && r->Err_0->Other_0@ == "cannot encode "@
            + format_word(format) + ": "@ + e,
    }
}

/// What comes of an encoder's result.
pub fn encoded(
    width: u32,
    height: u32,
    format: ShotFormat,
    data: core::result::Result<Vec<u8>, String>,
) -> (r: Result<Encoded>)
    ensures
        is_encoded(r, width, height, format, data_view(data)),
{
    match data {
        Ok(data) => Ok(Encoded { data, width, height }),
        Err(e) => {
            let mut m = joined3("cannot encode ", word_of(format), ": ");
            m.push_str(e.as_str());
            Err(SshError::Other(m))
        },
    }
}

/// What comes of a capture.
pub open spec fn is_downscaled(
    r: Result<Encoded>,
    raw: Seq<u8>,
    max_width: u32,
    format: ShotFormat,
    quality: u8,
) -> bool {
    match image_size_of(raw) {
        Err(e) => r is Err && r->Err_0 is Other && r->Err_0->Other_0@
            == "cannot decode the capture: "@ + e,
        Ok((w, h)) => {
            let size = fitted(w as nat, h as nat, max_width as nat);
            is_encoded(
                r,
                size.0 as u32,
                size.1 as u32,
                format,
                match format {
                    ShotFormat::Png => png_of(raw, size.0 as u32, size.1 as u32),
                    ShotFormat::Jpeg => jpeg_of(raw, size.0 as u32, size.1 as u32, quality),
                },
            )
        },
    }
}

/// Decode a capture, fit it inside `max_width` and re-encode. Blocking, and
/// CPU-bound.
pub fn downscale(raw: &[u8], max_width: u32, format: ShotFormat, quality: u8) -> (r: Result<
    Encoded,
>)
    ensures
        is_downscaled(r, raw@, max_width, format, quality),
{
    match image_size(raw) {
        Err(e) => Err(SshError::Other(joined2("cannot decode the capture: ", e.as_str()))),
        Ok((w, h)) => {
            let (width, height) = fit(w, h, max_width);
            proof {
                if w > max_width {
                    lemma_scaled(w as int, h as int, max_width as int);
                }
            }
            let data = match format {
                ShotFormat::Png => png_bytes(raw, width, height),
                ShotFormat::Jpeg => jpeg_bytes(raw, width, height, quality),
            };
            encoded(width, height, format, data)
        },
    }
}

// ---------------------------------------------------------------------------
// Answers
// ---------------------------------------------------------------------------

pub open spec fn shot_head(host: Seq<char>, bin: Seq<char>, bytes: nat, duration_ms: u128) -> Seq<
    char,
> {
    field_text(0, "host"@, scalar(host)) + field_text(0, "backend"@, scalar(bin)) + field_text(
        0,
        "bytes"@,
        decimal(bytes),
    ) + field_text(0, "ms"@, decimal((duration_ms as u64) as nat))
}

fn shot_start(host: &str, bin: &str, bytes: usize, duration_ms: u128) -> (t: Toon)
    ensures
        t.depth() == 0,
        t.wf(),
        t.text() == shot_head(host@, bin@, bytes as nat, duration_ms),
{
    let mut t = Toon::new();
    let _ = t.field("host", host);
    assert(t.text() =~= field_text(0, "host"@, scalar(host@)));
    let _ = t.field("backend", bin);
    let _ = t.field("bytes", bytes);
    let _ = t.field("ms", #[verifier::truncate] (duration_ms as u64));
    t
}

/// Why an answer holds no image.
pub open spec fn no_image_text(local: Option<Seq<char>>) -> Seq<char> {
    match local {
        Some(p) => field_text(0, "local"@, scalar(p)),
        None => field_text(
            0,
            "error"@,
            scalar("capture exceeded the 64 MB cap; rerun with local=<path>"@),
        ),
    }
}

/// The answer of `shot` without an image: the original is on disk, or was too
/// large.
pub fn format_shot_without_image(
    host: &str,
    bin: &str,
    bytes: usize,
    duration_ms: u128,
    local: Option<&str>,
) -> (r: String)
    ensures
        r@ == shot_head(host@, bin@, bytes as nat, duration_ms) + no_image_text(str_view(local)),
{
    let mut t = shot_start(host, bin, bytes, duration_ms);
    match local {
        Some(p) => {
            let _ = t.field("local", p);
        },
        None => {
            let _ = t.field("error", "capture exceeded the 64 MB cap; rerun with local=<path>");
        },
    }
    t.into_string()
}

/// An answer with an image: the text, the image in base64 and its media type.
#[derive(Debug)]
pub struct ShotAnswer {
    pub text: String,
    pub image: String,
    pub mime: &'static str,
}

/// The answer of `shot` with an image: the text begins with `head`.
pub open spec fn answers_with(
    r: ShotAnswer,
    head: Seq<char>,
    format: ShotFormat,
    e: Encoded,
) -> bool {
    &&& r.text@ == head + field_text(0, "width"@, decimal(e.width as nat)) + field_text(
        0,
        "height"@,
        decimal(e.height as nat),
    ) + field_text(0, "format"@, scalar(format_word(format))) + field_text(
        0,
        "image_bytes"@,
        decimal(e.data@.len()),
    )
    &&& r.image@ == base64_of(e.data@)
    &&& r.mime@ == (if format == ShotFormat::Png {
        "image/png"@
    } else {
        "image/jpeg"@
    })
}

/// The answer of `shot` with an image.
pub fn format_shot(
    host: &str,
    bin: &str,
    bytes: usize,
    duration_ms: u128,
    format: ShotFormat,
    e: &Encoded,
) -> (r: ShotAnswer)
    ensures
        answers_with(r, shot_head(host@, bin@, bytes as nat, duration_ms), format, *e),
{
    let mut t = shot_start(host, bin, bytes, duration_ms);
    let _ = t.field("width", e.width as u64);
    let _ = t.field("height", e.height as u64);
    let _ = t.field("format", word_of(format));
    let _ = t.field("image_bytes", e.data.len());
    let mime = match format {
        ShotFormat::Png => "image/png",
        ShotFormat::Jpeg => "image/jpeg",
    };
    ShotAnswer { text: t.into_string(), image: base64_text(e.data.as_slice()), mime }
}

// ---------------------------------------------------------------------------
// A call of shot
// ---------------------------------------------------------------------------

/// What a call of `shot` works with.
#[verifier::ext_equal]
pub struct ShotView {
    pub host: Seq<char>,
    pub backend: BackendView,
    /// The file on the host that the capture goes to.
    pub path: Seq<char>,
}

/// A capture that is about to be taken.
pub struct ShotCall {
    host: String,
    backend: Backend,
    path: String,
    cmd: String,
}

/// What came of fetching a capture. A capture that went to a local file, or was
/// too large, brings no bytes.
pub struct ShotFile {
    pub bytes: usize,
    pub duration_ms: u128,
    pub raw: Option<Vec<u8>>,
}

/// A capture that was taken. It is fetched next.
pub struct ShotFetch {
    call: ShotCall,
}

/// A capture whose file on the host has no more use.
pub struct ShotDiscard {
    call: ShotCall,
    outcome: Result<ShotFile>,
}

/// What follows the capture command.
pub enum ShotNext {
    /// What was fetched goes to [`ShotFetch::fetched`].
    Fetch(ShotFetch),
    /// The backend failed, and may have left part of a file.
    Discard(ShotDiscard),
}

/// A capture that was fetched.
pub struct ShotTaken {
    call: ShotCall,
    file: ShotFile,
}

/// A capture that has to be made into an image.
pub struct ShotImage {
    call: ShotCall,
    bytes: usize,
    duration_ms: u128,
    raw: Vec<u8>,
}

/// The answer of `shot`, as far as it is known.
pub enum ShotReply {
    Text(String),
    /// The image is made by [`ShotImage::encode`], which takes its time.
    Image(ShotImage),
}

impl View for ShotCall {
    type V = ShotView;

    closed spec fn view(&self) -> ShotView {
        ShotView { host: self.host@, backend: self.backend@, path: self.path@ }
    }
}

impl ShotCall {
    /// The command that takes the capture.
    pub closed spec fn command(&self) -> Seq<char> {
        self.cmd@
    }

    /// Picks the backend and the file. `clock` tells captures apart where the
    /// system has no randomness to give.
    pub fn new(host: String, facts: &HostFacts, display: Option<&str>, clock: u64) -> (r: Result<
        Self,
    >)
        ensures
            match r {
                Ok(c) => {
                    &&& c@.host == host@
                    &&& first_backend(backend_list(), facts.pairs()) == Some(c@.backend)
                    &&& exists|n: u64| c@.path == capture_file(#[trigger] nonce_text(n))
                    &&& c.command() == capture_text(c@.backend, c@.path, str_view(display))
                },
                Err(e) => first_backend(backend_list(), facts.pairs()) is None && e is Other
                    && e->Other_0@ == no_backend_text(host@),
            },
    {
        match choose_backend(host.as_str(), facts) {
            Err(e) => Err(e),
            Ok(backend) => {
                let id = nonce(clock);
                let path = capture_path(id.as_str());
                let cmd = capture_command(&backend, path.as_str(), display);
                Ok(ShotCall { host, backend, path, cmd })
            },
        }
    }

    pub fn cmd(&self) -> (r: &str)
        ensures
            r@ == self.command(),
    {
        self.cmd.as_str()
    }

    /// What follows the command.
    pub fn ran(self, exit_code: i32, stderr: &str) -> (r: ShotNext)
        ensures
            match r {
                ShotNext::Fetch(f) => exit_code == 0 && f@ == self@,
                ShotNext::Discard(d) => {
                    &&& exit_code != 0
                    &&& d@ == self@
                    &&& d.outcome() is Err && d.outcome()->Err_0 is Other
                    &&& d.outcome()->Err_0->Other_0@ == capture_fault(
                        self@.backend.bin,
                        self@.host,
                        exit_code,
                        stderr@,
                    )
                },
            },
    {
        if exit_code == 0 {
            ShotNext::Fetch(ShotFetch { call: self })
        } else {
            let e = capture_failed(self.backend.bin, self.host.as_str(), exit_code, stderr);
            ShotNext::Discard(ShotDiscard { call: self, outcome: Err(e) })
        }
    }
}

impl View for ShotFetch {
    type V = ShotView;

    closed spec fn view(&self) -> ShotView {
        self.call@
    }
}

impl ShotFetch {
    /// The file to fetch.
    pub fn path(&self) -> (r: &str)
        ensures
            r@ == self@.path,
    {
        self.call.path.as_str()
    }

    /// Whether or not the fetch worked, the file on the host goes.
    pub fn fetched(self, outcome: Result<ShotFile>) -> (r: ShotDiscard)
        ensures
            r@ == self@,
            r.outcome() == outcome,
    {
        ShotDiscard { call: self.call, outcome }
    }
}

impl View for ShotDiscard {
    type V = ShotView;

    closed spec fn view(&self) -> ShotView {
        self.call@
    }
}

impl ShotDiscard {
    pub closed spec fn outcome(&self) -> Result<ShotFile> {
        self.outcome
    }

    /// The file to remove.
    pub fn path(&self) -> (r: &str)
        ensures
            r@ == self@.path,
    {
        self.call.path.as_str()
    }

    /// What came of the call, once the file was removed. There is no other way
    /// to the outcome of a capture.
    pub fn removed(self) -> (r: Result<ShotTaken>)
        ensures
            match self.outcome() {
                Ok(f) => r is Ok && r->Ok_0@ == self@ && r->Ok_0.file() == f,
                Err(e) => r is Err && r->Err_0 == e,
            },
    {
        match self.outcome {
            Ok(file) => Ok(ShotTaken { call: self.call, file }),
            Err(e) => Err(e),
        }
    }
}

impl View for ShotTaken {
    type V = ShotView;

    closed spec fn view(&self) -> ShotView {
        self.call@
    }
}

impl ShotTaken {
    pub closed spec fn file(&self) -> ShotFile {
        self.file
    }

    /// What is logged.
    pub fn record(&self) -> (r: AuditRecord)
        ensures
            r@ == (RecordView {
                cmd: Some(self@.path),
                exit_code: Some(0),
                duration_ms: Some(self.file().duration_ms),
                bytes_out: Some(self.file().bytes),
                ..blank()
            }),
    {
        AuditRecord::ran(self.call.path.as_str(), 0, self.file.bytes).took(self.file.duration_ms)
    }

    /// The answer. `local` is the file that the capture went to instead of into
    /// the reply.
    pub fn answer(self, local: Option<&str>) -> (r: ShotReply)
        ensures
            match self.file().raw {
                None => r is Text && r->Text_0@ == shot_head(
                    self@.host,
                    self@.backend.bin,
                    self.file().bytes as nat,
                    self.file().duration_ms,
                ) + no_image_text(str_view(local)),
                Some(raw) => {
                    &&& r is Image && r->Image_0@ == self@
                    &&& r->Image_0.bytes() == self.file().bytes
                    &&& r->Image_0.duration_ms() == self.file().duration_ms
                    &&& r->Image_0.raw() == raw@
                },
            },
    {
        let ShotTaken { call, file } = self;
        let ShotFile { bytes, duration_ms, raw } = file;
        match raw {
            None => ShotReply::Text(
                format_shot_without_image(
                    call.host.as_str(),
                    call.backend.bin,
                    bytes,
                    duration_ms,
                    local,
                ),
            ),
            Some(raw) => ShotReply::Image(ShotImage { call, bytes, duration_ms, raw }),
        }
    }
}

impl View for ShotImage {
    type V = ShotView;

    closed spec fn view(&self) -> ShotView {
        self.call@
    }
}

impl ShotImage {
    pub closed spec fn bytes(&self) -> usize {
        self.bytes
    }

    pub closed spec fn duration_ms(&self) -> u128 {
        self.duration_ms
    }

    pub closed spec fn raw(&self) -> Seq<u8> {
        self.raw@
    }

    /// Makes the image that is returned. Blocking, and CPU-bound.
    pub fn encode(
        self,
        max_width: Option<u32>,
        format: ShotFormat,
        quality: Option<u8>,
    ) -> (r: Result<ShotAnswer>)
        ensures
            exists|d: Result<Encoded>|
                #[trigger] is_downscaled(
                    d,
                    self.raw(),
                    clamped_width(max_width),
                    format,
                    clamped_quality(quality),
                ) && match d {
                    Ok(e) => r is Ok && answers_with(
                        r->Ok_0,
                        shot_head(
                            self@.host,
                            self@.backend.bin,
                            self.bytes() as nat,
                            self.duration_ms(),
                        ),
                        format,
                        e,
                    ),
                    Err(e) => r is Err && r->Err_0 == e,
                },
    {
        let made = downscale(
            self.raw.as_slice(),
            shot_width(max_width),
            format,
            shot_quality(quality),
        );
        assert(is_downscaled(
            made,
            self.raw(),
            clamped_width(max_width),
            format,
            clamped_quality(quality),
        ));
        match made {
            Err(e) => Err(e),
            Ok(image) => Ok(
                format_shot(
                    self.call.host.as_str(),
                    self.call.backend.bin,
                    self.bytes,
                    self.duration_ms,
                    format,
                    &image,
                ),
            ),
        }
    }
}

// ---------------------------------------------------------------------------
// Laws
// ---------------------------------------------------------------------------

/// The number that the bytes of a nonce stand for, the lowest byte first.
pub open spec fn nonce_value(s: Seq<char>, n: nat) -> nat
    decreases n,
{
    if n == 0 {
        0
    } else {
        hex_value(s.take(2)) + 256 * nonce_value(s.skip(2), (n - 1) as nat)
    }
}

proof fn lemma_nonce_value(x: nat, n: nat)
    ensures
        low_bytes_hex(x, n).len() == 2 * n,
        x < hex_bound(2 * n) ==> nonce_value(low_bytes_hex(x, n), n) == x,
    decreases n,
{
    if n > 0 {
        let less = (n - 1) as nat;
        let first = hex_padded(x % 256, 2);
        let rest = low_bytes_hex(x / 256, less);
        let s = low_bytes_hex(x, n);
        lemma_nonce_value(x / 256, less);
        reveal_with_fuel(hex_bound, 3);
        law_hex_reads_back(x % 256, 2);
        assert(hex_bound(2) == 256);
        assert(s.take(2) =~= first);
        assert(s.skip(2) =~= rest);
        let w = (2 * n - 2) as nat;
        assert(hex_bound(2 * n) == hex_bound(w) * 256);
        assert(x < hex_bound(w) * 256 ==> x / 256 < hex_bound(w));
    }
}

/// A nonce reads back as the number that was drawn, so two draws that differ have
/// different files.
pub proof fn law_nonce_reads_back(x: u64)
    ensures
        nonce_text(x).len() == 16,
        nonce_value(nonce_text(x), 8) == x,
{
    lemma_nonce_value(x as nat, 8);
    assert(hex_bound(16) == 0x1_0000_0000_0000_0000) by {
        reveal_with_fuel(hex_bound, 17);
    }
}

/// A mark is replaced where it stands, and what is around it stays.
pub proof fn law_mark_is_replaced(a: Seq<char>, b: Seq<char>, q: Seq<char>)
    requires
        !a.contains('{'),
        !b.contains('{'),
    ensures
        replaced(a + seq!['{', '}'] + b, seq!['{', '}'], q) == a + q + b,
    decreases a.len(),
{
    let mark = seq!['{', '}'];
    let s = a + mark + b;
    if a.len() == 0 {
        assert(s =~= mark + b);
        assert(s.take(2) =~= mark);
        assert(s.skip(2) =~= b);
        lemma_nothing_replaced(b, mark, q);
        assert(a + q + b =~= q + b);
    } else {
        assert(a.contains(a[0]));
        assert(s[0] == a[0]);
        assert(s.take(2)[0] == a[0]);
        assert(s.skip(1) =~= a.skip(1) + mark + b);
        assert forall|i: int| 0 <= i < a.skip(1).len() implies a.skip(1)[i] != '{' by {
            assert(a.contains(a[i + 1]));
        }
        law_mark_is_replaced(a.skip(1), b, q);
        assert(seq![a[0]] + (a.skip(1) + q + b) =~= a + q + b);
    }
}

proof fn lemma_nothing_replaced(s: Seq<char>, mark: Seq<char>, q: Seq<char>)
    requires
        mark == seq!['{', '}'],
        !s.contains('{'),
    ensures
        replaced(s, mark, q) == s,
    decreases s.len(),
{
    if s.len() > 0 {
        assert(s.contains(s[0]));
        if s.len() >= 2 {
            assert(s.take(2)[0] == s[0]);
        }
        assert forall|i: int| 0 <= i < s.skip(1).len() implies s.skip(1)[i] != '{' by {
            assert(s.contains(s[i + 1]));
        }
        lemma_nothing_replaced(s.skip(1), mark, q);
        assert(seq![s[0]] + s.skip(1) =~= s);
    } else {
        assert(s =~= Seq::empty());
    }
}

/// The first tool of the list that a host has takes the capture.
pub proof fn law_first_installed_tool_is_used(
    list: Seq<BackendView>,
    facts: Seq<(Seq<char>, Seq<char>)>,
    i: int,
)
    requires
        0 <= i < list.len(),
        has_tool(facts, list[i].bin),
        forall|k: int| 0 <= k < i ==> !has_tool(facts, (#[trigger] list[k]).bin),
    ensures
        first_backend(list, facts) == Some(list[i]),
    decreases i,
{
    if i > 0 {
        let rest = list.skip(1);
        assert(!has_tool(facts, list[0].bin));
        assert(rest[i - 1] == list[i]);
        assert forall|k: int| 0 <= k < i - 1 implies !has_tool(facts, (#[trigger] rest[k]).bin) by {
            assert(rest[k] == list[k + 1]);
        }
        law_first_installed_tool_is_used(rest, facts, i - 1);
    }
}

/// Whatever the path and the display hold, the shell reads each as the one word
/// that it is: the tool writes to that file and, where it needs one, looks at
/// that display.
pub proof fn law_capture_names_the_file(
    b: BackendView,
    before: Seq<char>,
    after: Seq<char>,
    path: Seq<char>,
    display: Seq<char>,
)
    requires
        b.template == before + seq!['{', '}'] + after,
        !before.contains('{'),
        !after.contains('{'),
    ensures
        exists|w: Seq<char>, d: Seq<char>|
            #![trigger sh_word(w, false), sh_word(d, false)]
            sh_word(w, false) == Some(path) && sh_word(d, false) == Some(display) && {
                &&& b.needs_display ==> capture_text(b, path, Some(display)) == "DISPLAY="@ + d
                    + " "@ + (before + w + after)
                &&& !b.needs_display ==> capture_text(b, path, Some(display))
                    == "XDG_RUNTIME_DIR=${XDG_RUNTIME_DIR:-/run/user/$(id -u)} "@ + (before + w
                    + after)
            },
{
    law_shell_reads_quoted_word_back(path);
    law_shell_reads_quoted_word_back(display);
    reveal_strlit("{}");
    assert("{}"@ =~= seq!['{', '}']);
    law_mark_is_replaced(before, after, quoted_word(path));
    assert(sh_word(quoted_word(path), false) == Some(path));
    assert(sh_word(quoted_word(display), false) == Some(display));
}

/// What is asked for is granted within the limits, and what lies beyond one of
/// them becomes that limit.
pub proof fn law_sizes_are_kept_within_limits(width: u32, quality: u8)
    ensures
        16 <= clamped_width(Some(width)) <= MAX_MAX_WIDTH,
        16 <= width <= MAX_MAX_WIDTH ==> clamped_width(Some(width)) == width,
        width < 16 ==> clamped_width(Some(width)) == 16,
        width > MAX_MAX_WIDTH ==> clamped_width(Some(width)) == MAX_MAX_WIDTH,
        16 <= clamped_width(None) <= MAX_MAX_WIDTH,
        1 <= clamped_quality(Some(quality)) <= 100,
        1 <= quality <= 100 ==> clamped_quality(Some(quality)) == quality,
        quality == 0 ==> clamped_quality(Some(quality)) == 1,
        quality > 100 ==> clamped_quality(Some(quality)) == 100,
        1 <= clamped_quality(None) <= 100,
{
}

} // verus!

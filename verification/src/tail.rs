//! Reading the end of a remote file.

use vstd::prelude::*;
use vstd::string::*;

use crate::session::exec::ExecResult;
use crate::text::{decimal, push_decimal};
use crate::tools::{law_shell_reads_quoted_word_back, quoted_word, sh_word, shell_quote};

verus! {

#[derive(Debug)]
pub struct TailChunk {
    pub content: String,
    pub bytes: usize,
    pub exit_code: i32,
}

/// The command that reads the end of a file. Following goes through `head -c`,
/// so that the call returns as soon as the capture is full instead of sitting
/// out the whole time, and warnings of `tail` reach the captured output.
pub open spec fn tail_text(
    path: Seq<char>,
    lines: nat,
    follow: bool,
    secs: nat,
    max_capture: nat,
) -> Seq<char> {
    if follow {
        "timeout "@ + decimal(if secs < 1 {
            1
        } else {
            secs
        }) + " tail -n "@ + decimal(lines) + " -F "@ + quoted_word(path) + " 2>&1 | head -c "@
            + decimal(max_capture)
    } else {
        "tail -n "@ + decimal(lines) + " "@ + quoted_word(path)
    }
}

/// Read the last `lines` lines of `path`. If `follow=false` it is just `tail -n`.
/// If `follow=true` it is `tail -n <lines> -F`, for `secs` seconds.
pub fn tail_command(path: &str, lines: u32, follow: bool, secs: u64, max_capture: usize) -> (r:
    String)
    ensures
        r@ == tail_text(path@, lines as nat, follow, secs as nat, max_capture as nat),
{
    let path_q = shell_quote(path);
    if follow {
        let mut s = "timeout ".to_owned();
        push_decimal(
            &mut s,
            if secs < 1 {
                1
            } else {
                secs
            },
        );
        s.push_str(" tail -n ");
        push_decimal(&mut s, lines as u64);
        s.push_str(" -F ");
        s.push_str(path_q.as_str());
        s.push_str(" 2>&1 | head -c ");
        push_decimal(&mut s, max_capture as u64);
        s
    } else {
        let mut s = "tail -n ".to_owned();
        push_decimal(&mut s, lines as u64);
        s.push_str(" ");
        s.push_str(path_q.as_str());
        s
    }
}

/// How long the command may take, in seconds.
pub fn tail_deadline(secs: u64, follow: bool) -> (r: u64)
    requires
        secs + 10 <= u64::MAX,
    ensures
        r == secs + (if follow {
            5int
        } else {
            10
        }),
{
    if follow {
        secs + 5
    } else {
        secs + 10
    }
}

/// What a command that read the end of a file gave.
pub fn tail(r: ExecResult) -> (c: TailChunk)
    ensures
        c.content == r.stdout,
        c.bytes == r.stdout_bytes,
        c.exit_code == r.exit_code,
{
    TailChunk { content: r.stdout, bytes: r.stdout_bytes, exit_code: r.exit_code }
}

/// Whatever a path holds, the shell reads it as the one word that it is: the
/// command is `tail` with the number of lines and that word, and where it
/// follows the file, the time and the size that it stops at.
pub proof fn law_tail_names_the_path(path: Seq<char>, lines: nat, secs: nat, max_capture: nat)
    requires
        secs >= 1,
    ensures
        exists|w: Seq<char>| #[trigger]
            sh_word(w, false) == Some(path) && tail_text(path, lines, false, secs, max_capture)
                == "tail -n "@ + decimal(lines) + " "@ + w,
        exists|w: Seq<char>| #[trigger]
            sh_word(w, false) == Some(path) && tail_text(path, lines, true, secs, max_capture)
                == "timeout "@ + decimal(secs) + " tail -n "@ + decimal(lines) + " -F "@ + w
                + " 2>&1 | head -c "@ + decimal(max_capture),
        tail_text(path, lines, true, 0, max_capture) == tail_text(
            path,
            lines,
            true,
            1,
            max_capture,
        ),
{
    law_shell_reads_quoted_word_back(path);
    assert(sh_word(quoted_word(path), false) == Some(path));
}

} // verus!

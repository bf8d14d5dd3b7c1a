//! Port-forwarding tools: `forward`, `forwards`, `unforward`.

use vstd::prelude::*;
use vstd::string::*;

use crate::errors::{Result, SshError};
use crate::forward::{bind_address, bind_text};
use crate::output::toon::{
    field_text, row_views, scalar, str_views, string_views, table_text, Toon,
};
use crate::text::{decimal, digits_value, has_prefix, joined2, law_decimal_reads_back, push_decimal};

verus! {

/// A tunnel that is open.
#[derive(Debug)]
pub struct Tunnel {
    pub host: String,
    /// The address that it listens on.
    pub bound: String,
    pub remote_host: String,
    pub remote_port: u16,
}

/// Where a tunnel leads.
pub open spec fn target_text(remote_host: Seq<char>, remote_port: nat) -> Seq<char> {
    remote_host + ":"@ + decimal(remote_port)
}

fn target_of(remote_host: &str, remote_port: u16) -> (r: String)
    ensures
        r@ == target_text(remote_host@, remote_port as nat),
{
    let mut s = joined2(remote_host, ":");
    push_decimal(&mut s, remote_port as u64);
    s
}

pub open spec fn port_taken_text(local_port: nat) -> Seq<char> {
    "local port "@ + decimal(local_port) + " already forwarded; unforward first"@
}

/// Refuses a local port that a tunnel already listens on.
pub fn check_port(local_port: u16, taken: bool) -> (r: Result<()>)
    ensures
        match r {
            Ok(_) => !taken,
            Err(e) => taken && e is Config && e->Config_0@ == port_taken_text(local_port as nat),
        },
{
    if taken {
        let mut m = "local port ".to_owned();
        push_decimal(&mut m, local_port as u64);
        m.push_str(" already forwarded; unforward first");
        return Err(SshError::Config(m));
    }
    Ok(())
}

/// What the log says of a tunnel.
pub fn forward_record(local_port: u16, remote_host: &str, remote_port: u16) -> (r: String)
    ensures
        r@ == bind_text(local_port as nat) + " -> "@ + target_text(
            remote_host@,
            remote_port as nat,
        ),
{
    let mut s = bind_address(local_port);
    s.push_str(" -> ");
    let target = target_of(remote_host, remote_port);
    s.push_str(target.as_str());
    s
}

/// The answer of `forward`.
pub fn format_forward(t: &Tunnel) -> (r: String)
    ensures
        r@ == field_text(0, "host"@, scalar(t.host@)) + field_text(0, "local"@, scalar(t.bound@))
            + field_text(
            0,
            "remote"@,
            scalar(target_text(t.remote_host@, t.remote_port as nat)),
        ) + field_text(0, "status"@, scalar("listening"@)),
{
    let target = target_of(t.remote_host.as_str(), t.remote_port);
    let mut out = Toon::new();
    let _ = out.field("host", t.host.as_str());
    assert(out.text() =~= field_text(0, "host"@, scalar(t.host@)));
    let _ = out.field("local", t.bound.as_str());
    let _ = out.field("remote", target.as_str());
    let _ = out.field("status", "listening");
    out.into_string()
}

/// The answer of `unforward`.
pub fn format_unforward(local_port: u16, stopped: bool) -> (r: String)
    ensures
        r@ == field_text(0, "local_port"@, decimal(local_port as nat)) + field_text(
            0,
            "status"@,
            scalar(
                if stopped {
                    "stopped"@
                } else {
                    "no such forward"@
                },
            ),
        ),
{
    let mut t = Toon::new();
    let _ = t.field("local_port", local_port as u64);
    assert(t.text() =~= field_text(0, "local_port"@, decimal(local_port as nat)));
    let status = if stopped {
        "stopped"
    } else {
        "no such forward"
    };
    let _ = t.field("status", status);
    t.into_string()
}

pub open spec fn tunnel_row(t: Tunnel) -> Seq<Seq<char>> {
    seq![t.host@, t.bound@, target_text(t.remote_host@, t.remote_port as nat)]
}

pub open spec fn tunnel_rows(s: Seq<Tunnel>) -> Seq<Seq<Seq<char>>> {
    Seq::new(s.len(), |i: int| tunnel_row(s[i]))
}

/// The answer of `forwards`.
pub fn format_forwards(tunnels: &Vec<Tunnel>) -> (r: String)
    ensures
        r@ == table_text(
            0,
            "forwards"@,
            seq!["host"@, "local"@, "remote"@],
            tunnel_rows(tunnels@),
        ),
{
    let mut rows: Vec<Vec<String>> = Vec::new();
    let mut i: usize = 0;
    while i < tunnels.len()
        invariant
            i <= tunnels@.len(),
            row_views(rows@) == tunnel_rows(tunnels@).take(i as int),
        decreases tunnels@.len() - i,
    {
        let t = &tunnels[i];
        let mut row: Vec<String> = Vec::new();
        row.push(t.host.clone());
        row.push(t.bound.clone());
        row.push(target_of(t.remote_host.as_str(), t.remote_port));
        let ghost cells = string_views(row@);
        let ghost before = row_views(rows@);
        rows.push(row);
        proof {
            assert(cells =~= tunnel_row(tunnels@[i as int]));
            assert(row_views(rows@) =~= before.push(cells));
            assert(tunnel_rows(tunnels@).take(i + 1) =~= tunnel_rows(tunnels@).take(i as int).push(
                cells,
            ));
        }
        i = i + 1;
    }
    assert(row_views(rows@) =~= tunnel_rows(tunnels@));
    let mut t = Toon::new();
    let cols: [&str; 3] = ["host", "local", "remote"];
    assert(str_views(cols@) =~= seq!["host"@, "local"@, "remote"@]);
    let _ = t.table_strs("forwards", &cols, rows.as_slice());
    let s = t.into_string();
    assert(s@ =~= table_text(
        0,
        "forwards"@,
        seq!["host"@, "local"@, "remote"@],
        tunnel_rows(tunnels@),
    ));
    s
}

/// A tunnel is shown with the host and the port that it leads to, and its row
/// with where it listens.
pub proof fn law_tunnel_is_shown_whole(s: Seq<Tunnel>, i: int)
    requires
        0 <= i < s.len(),
    ensures
        tunnel_rows(s).len() == s.len(),
        tunnel_rows(s)[i].len() == 3,
        tunnel_rows(s)[i][0] == s[i].host@,
        tunnel_rows(s)[i][1] == s[i].bound@,
        has_prefix(tunnel_rows(s)[i][2], s[i].remote_host@.push(':')),
        digits_value(tunnel_rows(s)[i][2].skip(s[i].remote_host@.len() as int + 1))
            == s[i].remote_port as nat,
{
    reveal_strlit(":");
    let t = s[i];
    let text = target_text(t.remote_host@, t.remote_port as nat);
    let n = t.remote_host@.len() as int + 1;
    assert(text.take(n) =~= t.remote_host@.push(':'));
    assert(text.skip(n) =~= decimal(t.remote_port as nat));
    law_decimal_reads_back(t.remote_port as nat);
}

} // verus!

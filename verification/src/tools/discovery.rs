//! Discovery tools: `hosts`, `ping`.

use vstd::prelude::*;
use vstd::string::*;

use crate::audit::{blank, AuditRecord, RecordView};
use crate::config::{lookup, names_of, Config, HostView};
use crate::output::toon::{
    field_text, hint_text, row_views, scalar, str_views, string_views, table_text, Toon,
};
use crate::ssh_config::opt_view;
use crate::text::{decimal, holds, joined3, push_decimal, sorted_of, views};
use crate::tools::{auth_name, auth_str};

verus! {

/// The row of a host.
pub open spec fn host_row(name: Seq<char>, h: HostView, live: bool) -> Seq<Seq<char>> {
    seq![
        name,
        h.addr,
        h.user,
        decimal(h.port as nat),
        auth_name(h.auth),
        if live {
            "live"@
        } else {
            "idle"@
        },
    ]
}

/// The rows of those names that are declared.
pub open spec fn host_rows(
    names: Seq<Seq<char>>,
    hosts: Seq<(Seq<char>, HostView)>,
    active: Seq<Seq<char>>,
) -> Seq<Seq<Seq<char>>>
    decreases names.len(),
{
    if names.len() == 0 {
        Seq::empty()
    } else {
        let before = host_rows(names.drop_last(), hosts, active);
        let name = names.last();
        match lookup(hosts, name) {
            Some(h) => before.push(host_row(name, h, active.contains(name))),
            None => before,
        }
    }
}

/// The answer of `hosts`.
pub open spec fn hosts_text(
    names: Seq<Seq<char>>,
    hosts: Seq<(Seq<char>, HostView)>,
    active: Seq<Seq<char>>,
    config_path: Seq<char>,
) -> Seq<char> {
    if names.len() == 0 {
        field_text(0, "hosts"@, scalar("none configured"@)) + hint_text(
            0,
            "edit "@ + config_path + " to add hosts"@,
        )
    } else {
        table_text(
            0,
            "hosts"@,
            seq!["name"@, "addr"@, "user"@, "port"@, "auth"@, "session"@],
            host_rows(names, hosts, active),
        )
    }
}

/// The answer of `hosts`. Without any host it points at the config file that
/// was read: pointing someone at the wrong file is worse than at none.
pub fn format_hosts(cfg: &Config, active: &Vec<String>, config_path: &str) -> (r: String)
    ensures
        r@ == hosts_text(
            sorted_of(names_of(cfg.hosts@)),
            cfg.hosts@,
            views(active@),
            config_path@,
        ),
{
    let names = cfg.host_names();
    let ghost all = views(names@);
    let ghost live = views(active@);
    let ghost hosts = cfg.hosts@;
    let mut t = Toon::new();
    assert(all.len() == names@.len());
    if names.len() == 0 {
        let _ = t.field("hosts", "none configured");
        assert(t.text() =~= field_text(0, "hosts"@, scalar("none configured"@)));
        let m = joined3("edit ", config_path, " to add hosts");
        let _ = t.hint(m.as_str());
        return t.into_string();
    }
    let mut rows: Vec<Vec<String>> = Vec::new();
    let mut i: usize = 0;
    assert(row_views(rows@) =~= host_rows(all.take(0), hosts, live));
    while i < names.len()
        invariant
            i <= names@.len(),
            all == views(names@),
            live == views(active@),
            hosts == cfg.hosts@,
            row_views(rows@) == host_rows(all.take(i as int), hosts, live),
        decreases names@.len() - i,
    {
        let ghost before = row_views(rows@);
        proof {
            assert(all.take(i + 1).drop_last() =~= all.take(i as int));
            assert(all.take(i + 1).last() == names@[i as int]@);
        }
        if let Some(h) = cfg.hosts.get(names[i].as_str()) {
            let session = if holds(active, names[i].as_str()) {
                "live"
            } else {
                "idle"
            };
            let mut port = String::new();
            push_decimal(&mut port, h.port as u64);
            assert(port@ =~= decimal(h.port as nat));
            let mut row: Vec<String> = Vec::new();
            row.push(names[i].clone());
            row.push(h.addr.clone());
            row.push(h.user.clone());
            row.push(port);
            row.push(auth_str(h.auth).to_owned());
            row.push(session.to_owned());
            let ghost cells = string_views(row@);
            rows.push(row);
            proof {
                assert(cells =~= host_row(names@[i as int]@, h@, live.contains(names@[i as int]@)));
                assert(row_views(rows@) =~= before.push(cells));
            }
        }
        i = i + 1;
    }
    assert(all.take(i as int) =~= all);
    let cols: [&str; 6] = ["name", "addr", "user", "port", "auth", "session"];
    assert(str_views(cols@) =~= seq!["name"@, "addr"@, "user"@, "port"@, "auth"@, "session"@]);
    let ghost empty = t.text();
    let _ = t.table_strs("hosts", &cols, rows.as_slice());
    let s = t.into_string();
    assert(s@ =~= hosts_text(all, hosts, live, config_path@));
    s
}

/// What a probe of a host came to.
#[derive(Debug)]
pub struct PingResult {
    pub host: String,
    pub ms: u64,
    /// Why the host could not be reached; nothing where it could.
    pub error: Option<String>,
}

/// What is logged of one probe.
pub fn ping_record(p: &PingResult) -> (r: AuditRecord)
    ensures
        r@ == (RecordView {
            duration_ms: Some(p.ms as u128),
            error: opt_view(p.error),
            ..blank()
        }),
{
    let record = match &p.error {
        Some(e) => AuditRecord::error(e.as_str()),
        None => AuditRecord::empty(),
    };
    record.took(p.ms as u128)
}

pub open spec fn ping_row(p: PingResult) -> Seq<Seq<char>> {
    match p.error {
        None => seq![p.host@, "ok"@, decimal(p.ms as nat), "-"@],
        Some(e) => seq![p.host@, "fail"@, decimal(p.ms as nat), e@],
    }
}

pub open spec fn ping_rows(s: Seq<PingResult>) -> Seq<Seq<Seq<char>>> {
    Seq::new(s.len(), |i: int| ping_row(s[i]))
}

/// The answer of `ping`.
pub fn format_ping(results: &Vec<PingResult>) -> (r: String)
    ensures
        r@ == table_text(
            0,
            "ping"@,
            seq!["host"@, "status"@, "ms"@, "error"@],
            ping_rows(results@),
        ),
{
    let mut rows: Vec<Vec<String>> = Vec::new();
    let mut i: usize = 0;
    while i < results.len()
        invariant
            i <= results@.len(),
            row_views(rows@) == ping_rows(results@).take(i as int),
        decreases results@.len() - i,
    {
        let p = &results[i];
        let mut ms = String::new();
        push_decimal(&mut ms, p.ms);
        assert(ms@ =~= decimal(p.ms as nat));
        let mut row: Vec<String> = Vec::new();
        row.push(p.host.clone());
        match &p.error {
            None => {
                row.push("ok".to_owned());
                row.push(ms);
                row.push("-".to_owned());
            },
            Some(e) => {
                row.push("fail".to_owned());
                row.push(ms);
                row.push(e.clone());
            },
        }
        let ghost cells = string_views(row@);
        let ghost before = row_views(rows@);
        rows.push(row);
        proof {
            assert(cells =~= ping_row(results@[i as int]));
            assert(row_views(rows@) =~= before.push(cells));
            assert(ping_rows(results@).take(i + 1) =~= ping_rows(results@).take(i as int).push(
                cells,
            ));
        }
        i = i + 1;
    }
    assert(row_views(rows@) =~= ping_rows(results@));
    let mut t = Toon::new();
    let cols: [&str; 4] = ["host", "status", "ms", "error"];
    assert(str_views(cols@) =~= seq!["host"@, "status"@, "ms"@, "error"@]);
    let _ = t.table_strs("ping", &cols, rows.as_slice());
    let s = t.into_string();
    assert(s@ =~= table_text(
        0,
        "ping"@,
        seq!["host"@, "status"@, "ms"@, "error"@],
        ping_rows(results@),
    ));
    s
}

/// Every declared host has a row: its name, address, user, port and way to log
/// in, and whether a session to it is live.
pub proof fn law_every_host_has_a_row(
    names: Seq<Seq<char>>,
    hosts: Seq<(Seq<char>, HostView)>,
    active: Seq<Seq<char>>,
    i: int,
)
    requires
        0 <= i < names.len(),
        lookup(hosts, names[i]) is Some,
    ensures
        exists|k: int|
            0 <= k < host_rows(names, hosts, active).len() && ({
                let row = #[trigger] host_rows(names, hosts, active)[k];
                let h = lookup(hosts, names[i])->0;
                &&& row.len() == 6
                &&& row[0] == names[i]
                &&& row[1] == h.addr
                &&& row[2] == h.user
                &&& row[3] == decimal(h.port as nat)
                &&& row[4] == auth_name(h.auth)
                &&& row[5] == (if active.contains(names[i]) {
                    "live"@
                } else {
                    "idle"@
                })
            }),
    decreases names.len(),
{
    let less = names.drop_last();
    let before = host_rows(less, hosts, active);
    let all = host_rows(names, hosts, active);
    let want = host_row(names[i], lookup(hosts, names[i])->0, active.contains(names[i]));
    if i == names.len() - 1 {
        assert(all[all.len() - 1] == want);
    } else {
        law_every_host_has_a_row(less, hosts, active, i);
        let h = lookup(hosts, less[i])->0;
        let k = choose|k: int|
            0 <= k < before.len() && ({
                let row = #[trigger] before[k];
                &&& row.len() == 6
                &&& row[0] == less[i]
                &&& row[1] == h.addr
                &&& row[2] == h.user
                &&& row[3] == decimal(h.port as nat)
                &&& row[4] == auth_name(h.auth)
                &&& row[5] == (if active.contains(less[i]) {
                    "live"@
                } else {
                    "idle"@
                })
            });
        assert(all[k] == before[k]);
    }
}

/// A host that answered is shown as such, and one that did not with the reason.
pub proof fn law_ping_tells_who_answered(p: PingResult)
    ensures
        ping_row(p).len() == 4,
        ping_row(p)[0] == p.host@,
        p.error is None ==> ping_row(p)[1] == "ok"@,
        p.error matches Some(e) ==> ping_row(p)[1] == "fail"@ && ping_row(p)[3] == e@,
        ping_row(p)[2] == decimal(p.ms as nat),
{
}

} // verus!

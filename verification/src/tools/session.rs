//! Session-lifecycle tools: `disconnect`, `disconnect_all`, `reload`, `shells`.

use vstd::prelude::*;
use vstd::string::*;

use crate::output::toon::{field_text, hint_text, law_field_reads_back, read_scalar, scalar, Toon};
use crate::server::MAX_NAMED_PTYS;
use crate::text::{
    decimal, has_prefix, has_suffix, join, join_with, law_split_undoes_join, same, split_on, views,
};

verus! {

/// The answer of `disconnect`.
pub fn format_disconnect(host: &str) -> (r: String)
    ensures
        r@ == field_text(0, "host"@, scalar(host@)) + field_text(0, "status"@, scalar("closed"@)),
{
    let mut t = Toon::new();
    let _ = t.field("host", host);
    assert(t.text() =~= field_text(0, "host"@, scalar(host@)));
    let _ = t.field("status", "closed");
    t.into_string()
}

/// A list of names, unless there are none.
pub open spec fn names_field(key: Seq<char>, names: Seq<Seq<char>>) -> Seq<char> {
    if names.len() == 0 {
        Seq::empty()
    } else {
        field_text(0, key, scalar(join_with(names, ',')))
    }
}

fn push_names(t: &mut Toon, key: &str, names: &Vec<String>)
    requires
        old(t).depth() == 0,
    ensures
        final(t).depth() == 0,
        final(t).text() == old(t).text() + names_field(key@, views(names@)),
{
    assert(views(names@).len() == names@.len());
    if names.len() == 0 {
        assert(t.text() + Seq::<char>::empty() =~= t.text());
    } else {
        let all = join(names, ',');
        let _ = t.field(key, all.as_str());
    }
}

/// The answer of `reload`.
pub fn format_reload(before: usize, after: usize, dropped: &Vec<String>) -> (r: String)
    ensures
        r@ == field_text(0, "hosts_before"@, decimal(before as nat)) + field_text(
            0,
            "hosts_after"@,
            decimal(after as nat),
        ) + field_text(0, "sessions_dropped"@, decimal(dropped@.len())) + names_field(
            "dropped"@,
            views(dropped@),
        ),
{
    let mut t = Toon::new();
    let _ = t.field("hosts_before", before);
    assert(t.text() =~= field_text(0, "hosts_before"@, decimal(before as nat)));
    let _ = t.field("hosts_after", after);
    let _ = t.field("sessions_dropped", dropped.len() as u64);
    push_names(&mut t, "dropped", dropped);
    t.into_string()
}

/// The answer of `disconnect_all`.
pub fn format_disconnect_all(closed: u64, names: &Vec<String>) -> (r: String)
    ensures
        r@ == field_text(0, "closed"@, decimal(closed as nat)) + names_field(
            "hosts"@,
            views(names@),
        ),
{
    let mut t = Toon::new();
    let _ = t.field("closed", closed);
    assert(t.text() =~= field_text(0, "closed"@, decimal(closed as nat)));
    push_names(&mut t, "hosts", names);
    t.into_string()
}

/// Whether every shell is to be closed, the default one included.
pub fn closes_all(target: &str) -> (r: bool)
    ensures
        r == (target@ == "*"@),
{
    same(target, "*")
}

/// What `shells` says of the shells that it closed; nothing where it was not to
/// close any.
pub open spec fn closed_text(closed: Option<usize>) -> Seq<char> {
    match closed {
        None => Seq::empty(),
        Some(n) => field_text(0, "closed"@, decimal(n as nat)) + (if n == 0 {
            hint_text(0, "no shell by that name; `shells` with no argument lists them"@)
        } else {
            Seq::empty()
        }),
    }
}

/// The answer of `shells`.
pub open spec fn shells_text(
    host: Seq<char>,
    closed: Option<usize>,
    named: Seq<Seq<char>>,
) -> Seq<char> {
    field_text(0, "host"@, scalar(host)) + closed_text(closed) + field_text(
        0,
        "named_count"@,
        decimal(named.len()),
    ) + field_text(0, "named_max"@, decimal(MAX_NAMED_PTYS as nat)) + names_field("named"@, named)
}

fn push_closed(t: &mut Toon, closed: Option<usize>)
    requires
        old(t).depth() == 0,
    ensures
        final(t).depth() == 0,
        final(t).text() == old(t).text() + closed_text(closed),
{
    let ghost before = t.text();
    match closed {
        None => {},
        Some(n) => {
            let _ = t.field("closed", n);
            if n == 0 {
                let _ = t.hint("no shell by that name; `shells` with no argument lists them");
            }
        },
    }
    assert(t.text() =~= before + closed_text(closed));
}

/// The answer of `shells`, on a host with a session.
pub fn format_shells(host: &str, closed: Option<usize>, named: &Vec<String>) -> (r: String)
    ensures
        r@ == shells_text(host@, closed, views(named@)),
{
    let mut t = Toon::new();
    let _ = t.field("host", host);
    assert(t.text() =~= field_text(0, "host"@, scalar(host@)));
    push_closed(&mut t, closed);
    assert(views(named@).len() == named@.len());
    let _ = t.field("named_count", named.len());
    let _ = t.field("named_max", MAX_NAMED_PTYS);
    push_names(&mut t, "named", named);
    t.into_string()
}

/// The names of the shells read back from the last line of the answer, whatever
/// they hold but a comma; without shells there is no such line.
pub proof fn law_every_shell_is_named(
    host: Seq<char>,
    closed: Option<usize>,
    named: Seq<Seq<char>>,
)
    requires
        forall|i: int| 0 <= i < named.len() ==> !(#[trigger] named[i]).contains(','),
    ensures
        named.len() == 0 ==> names_field("named"@, named).len() == 0,
        has_suffix(shells_text(host, closed, named), names_field("named"@, named)),
        named.len() > 0 ==> ({
            let line = names_field("named"@, named);
            let rest = line.skip("named: "@.len() as int);
            &&& has_prefix(line, "named: "@)
            &&& split_on(read_scalar(rest.drop_last()), ',') == named
        }),
{
    let text = shells_text(host, closed, named);
    let line = names_field("named"@, named);
    assert(text.skip(text.len() - line.len()) =~= line);
    if named.len() > 0 {
        reveal_strlit("named: ");
        reveal_strlit("named");
        reveal_strlit(": ");
        let head = Seq::new(0, |i: int| ' ') + "named"@ + ": "@;
        assert(head =~= "named: "@);
        law_field_reads_back(0, "named"@, join_with(named, ','));
        law_split_undoes_join(named, ',');
    }
}

} // verus!

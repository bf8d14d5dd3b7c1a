//! Which sessions are kept, how many channels they hold, and through which
//! hosts a connection goes.

use vstd::prelude::*;

use crate::config::{keys_of, lookup, Config, Host, HostView, HumanDuration};
use crate::confirm::millis_of;
use crate::errors::{Result, SshError};
use crate::paths::{are_same_paths, same_paths};
use crate::ssh_config::opt_view;
use crate::text::{joined3, lemma_views_push, same, views};

verus! {

/// Default number of pre-opened spare channels held per session.
/// Each spare costs one slot against sshd `MaxSessions`. Two is a safe
/// default with the standard `MaxSessions=10`.
pub const DEFAULT_POOL_TARGET: usize = 2;

/// How long a call waits for a free channel slot before giving up. Long enough
/// to ride out a burst of parallel calls, short enough that a leaked slot
/// surfaces as an actionable error.
pub const CHANNEL_ACQUIRE_TIMEOUT_MS: u64 = 15000;

/// How many channels a session may have open: at least one.
pub fn channel_cap(max_channels: usize) -> (r: usize)
    ensures
        r == (if max_channels == 0 {
            1
        } else {
            max_channels
        }),
{
    if max_channels == 0 {
        1
    } else {
        max_channels
    }
}

/// How many spare channels a session keeps open: never the last one.
pub fn spare_channels(max_channels: usize) -> (r: usize)
    ensures
        r == (if max_channels <= DEFAULT_POOL_TARGET {
            if max_channels == 0 {
                0
            } else {
                (max_channels - 1) as usize
            }
        } else {
            DEFAULT_POOL_TARGET
        }),
        max_channels > 0 ==> r < max_channels,
{
    let most: usize = max_channels.saturating_sub(1);
    if most < DEFAULT_POOL_TARGET {
        most
    } else {
        DEFAULT_POOL_TARGET
    }
}

// ---------------------------------------------------------------------------
// Reload
// ---------------------------------------------------------------------------

/// Two declarations that a connection cannot tell apart.
pub open spec fn same_connection(a: HostView, b: HostView, windows: bool) -> bool {
    &&& a.addr == b.addr
    &&& a.port == b.port
    &&& a.user == b.user
    &&& a.auth == b.auth
    &&& same_paths(keys_of(a, windows), keys_of(b, windows), windows)
    &&& a.proxy_jump == b.proxy_jump
}

/// A session survives a reload where its host is still declared, and in the
/// same way as far as the connection goes.
pub open spec fn survives(
    old: Option<HostView>,
    new: Option<HostView>,
    windows: bool,
) -> bool {
    match (old, new) {
        (_, None) => false,
        (Some(o), Some(n)) => same_connection(o, n, windows),
        (None, Some(_)) => true,
    }
}

fn same_options(a: &Option<String>, b: &Option<String>) -> (r: bool)
    ensures
        r == (opt_view(*a) == opt_view(*b)),
{
    match (a, b) {
        (Some(x), Some(y)) => same(x.as_str(), y.as_str()),
        (None, None) => true,
        _ => false,
    }
}

/// Whether a session survives a reload.
pub fn keeps_session(old: Option<&Host>, new: Option<&Host>, windows: bool) -> (r: bool)
    ensures
        r == survives(
            match old {
                Some(h) => Some(h@),
                None => None,
            },
            match new {
                Some(h) => Some(h@),
                None => None,
            },
            windows,
        ),
{
    match (old, new) {
        (_, None) => false,
        (None, Some(_)) => true,
        (Some(o), Some(n)) => same(o.addr.as_str(), n.addr.as_str()) && o.port == n.port && same(
            o.user.as_str(),
            n.user.as_str(),
        ) && o.auth == n.auth && are_same_paths(
            &o.all_keys_on(windows),
            &n.all_keys_on(windows),
            windows,
        ) && same_options(&o.proxy_jump, &n.proxy_jump),
    }
}

/// The active sessions that a reload drops.
pub open spec fn dropped_by(
    active: Seq<Seq<char>>,
    old: Seq<(Seq<char>, HostView)>,
    new: Seq<(Seq<char>, HostView)>,
    windows: bool,
) -> Seq<Seq<char>>
    decreases active.len(),
{
    if active.len() == 0 {
        Seq::empty()
    } else {
        let before = dropped_by(active.drop_last(), old, new, windows);
        if survives(lookup(old, active.last()), lookup(new, active.last()), windows) {
            before
        } else {
            before.push(active.last())
        }
    }
}

/// Names the cached sessions of hosts that no longer exist in the new
/// configuration, and of hosts whose connection-relevant fields changed (addr,
/// port, user, auth, key paths, proxy_jump).
pub fn prune_against(active: &Vec<String>, old: &Config, new: &Config, windows: bool) -> (r: Vec<
    String,
>)
    ensures
        views(r@) == dropped_by(views(active@), old.hosts@, new.hosts@, windows),
{
    let ghost all = views(active@);
    let mut out: Vec<String> = Vec::new();
    let mut i: usize = 0;
    assert(views(out@) =~= dropped_by(all.take(0), old.hosts@, new.hosts@, windows));
    while i < active.len()
        invariant
            i <= active@.len(),
            all == views(active@),
            views(out@) == dropped_by(all.take(i as int), old.hosts@, new.hosts@, windows),
        decreases active@.len() - i,
    {
        let name = &active[i];
        proof {
            assert(all.take(i + 1).drop_last() =~= all.take(i as int));
            assert(all.take(i + 1).last() == name@);
            lemma_views_push(out@, *name);
        }
        if !keeps_session(old.hosts.get(name.as_str()), new.hosts.get(name.as_str()), windows) {
            out.push(name.clone());
        }
        i = i + 1;
    }
    assert(all.take(i as int) =~= all);
    out
}

// ---------------------------------------------------------------------------
// Several connections to one host
// ---------------------------------------------------------------------------

/// Where a command goes.
#[derive(Debug, Clone, Copy, PartialEq, Eq, Structural)]
pub enum Placement {
    /// On the connection with that index, which has a free slot.
    Take(usize),
    /// On one that is opened for it.
    OpenAnother,
    /// It waits for a slot.
    Queue,
}

/// No connection has a free slot.
pub open spec fn all_full(free: Seq<usize>) -> bool {
    forall|i: int| 0 <= i < free.len() ==> free[i] == 0
}

/// Finds a slot for a command, given how many each connection to the host has
/// free. The server caps channels per connection, so a burst that fills all of
/// them opens another one; it waits only where the host has as many connections
/// as it may have.
pub fn place_exec(free: &Vec<usize>, max_connections: usize) -> (r: Placement)
    ensures
        match r {
            Placement::Take(i) => i < free@.len() && free@[i as int] > 0 && all_full(
                free@.take(i as int),
            ),
            Placement::OpenAnother => all_full(free@) && free@.len() < max_connections,
            Placement::Queue => all_full(free@) && free@.len() >= max_connections,
        },
{
    let mut i: usize = 0;
    while i < free.len()
        invariant
            i <= free@.len(),
            forall|k: int| 0 <= k < i ==> free@[k] == 0,
        decreases free@.len() - i,
    {
        if free[i] > 0 {
            return Placement::Take(i);
        }
        i = i + 1;
    }
    if free.len() < max_connections {
        Placement::OpenAnother
    } else {
        Placement::Queue
    }
}

/// Whether opening a channel is tried again. A server may refuse one because it
/// has not yet given up a slot that was free already; anything else that fails
/// fails for good.
pub fn retries_open(refused: bool, tried: u32) -> (r: bool)
    ensures
        r == (refused && tried <= 1),
{
    refused && tried <= 1
}

// ---------------------------------------------------------------------------
// Idle sessions
// ---------------------------------------------------------------------------

/// A session that was last used too long ago.
pub open spec fn is_idle(last_used_ms: u64, now_ms: u64, timeout: HumanDuration) -> bool {
    now_ms - last_used_ms > millis_of(timeout)
}

/// Whether a session is to be dropped for being idle.
pub fn should_evict(last_used_ms: u64, now_ms: u64, timeout: HumanDuration) -> (r: bool)
    ensures
        r == is_idle(last_used_ms, now_ms, timeout),
{
    let idle: u64 = now_ms.saturating_sub(last_used_ms);
    idle as u128 > timeout.as_millis()
}

/// How long a further connection to a host may stay unused.
pub const EXTRA_IDLE_SECS: u64 = 120;

/// Whether a further connection to a host is to be closed: it is there for a
/// burst, and goes long before the first one does.
pub fn should_close_extra(last_used_ms: u64, now_ms: u64) -> (r: bool)
    ensures
        r == (now_ms - last_used_ms > EXTRA_IDLE_SECS * 1000),
{
    let idle: u64 = now_ms.saturating_sub(last_used_ms);
    idle > EXTRA_IDLE_SECS * 1000
}

/// How often idle sessions are looked for: at most once per minute, and at
/// least twice per idle window, but not more often than every five seconds.
pub fn evict_interval_ms(idle_timeout: HumanDuration) -> (r: u64)
    ensures
        r == (if millis_of(idle_timeout) / 2 < 5000 {
            5000
        } else if millis_of(idle_timeout) / 2 > 60000 {
            60000
        } else {
            millis_of(idle_timeout) / 2
        }),
{
    let half: u128 = idle_timeout.as_millis() / 2;
    if half < 5000 {
        5000
    } else if half > 60000 {
        60000
    } else {
        half as u64
    }
}

/// Whether a failed login throws away the password that was kept: a wrong one
/// would be tried again and again.
pub fn forgets_password(e: &SshError) -> (r: bool)
    ensures
        r == (*e is AuthFailed),
{
    matches!(e, SshError::AuthFailed { .. })
}

// ---------------------------------------------------------------------------
// Spare channels
// ---------------------------------------------------------------------------

/// What the task that keeps spare channels open does next.
#[derive(Debug, Clone, Copy, PartialEq, Eq, Structural)]
pub enum RefillStep {
    /// The connection is gone.
    Stop,
    /// There are enough: wait until one is taken.
    WaitForUse,
    /// Take a slot, then look again.
    TakeSlot,
    /// Open a channel in the slot.
    Open,
    /// Give the slot back and look again.
    LookAgain,
    /// Give the slot back and try again after a while.
    Retry,
}

/// What to do before a slot is taken.
pub fn refill_step(closed: bool, parked: usize, target: usize) -> (r: RefillStep)
    ensures
        r == (if closed {
            RefillStep::Stop
        } else if parked >= target {
            RefillStep::WaitForUse
        } else {
            RefillStep::TakeSlot
        }),
{
    if closed {
        RefillStep::Stop
    } else if parked >= target {
        RefillStep::WaitForUse
    } else {
        RefillStep::TakeSlot
    }
}

/// What to do once a slot is taken: another may have come back meanwhile.
pub fn refill_with_slot(closed: bool, parked: usize, target: usize) -> (r: RefillStep)
    ensures
        r == (if closed {
            RefillStep::Stop
        } else if parked >= target {
            RefillStep::LookAgain
        } else {
            RefillStep::Open
        }),
{
    if closed {
        RefillStep::Stop
    } else if parked >= target {
        RefillStep::LookAgain
    } else {
        RefillStep::Open
    }
}

/// What to do when a channel could not be opened.
pub fn refill_after_failure(closed: bool) -> (r: RefillStep)
    ensures
        r == (if closed {
            RefillStep::Stop
        } else {
            RefillStep::Retry
        }),
{
    if closed {
        RefillStep::Stop
    } else {
        RefillStep::Retry
    }
}

// ---------------------------------------------------------------------------
// Jump hosts
// ---------------------------------------------------------------------------

/// The host that a connection to `name` goes through after `n` jumps.
pub open spec fn hop(hosts: Seq<(Seq<char>, HostView)>, name: Seq<char>, n: nat) -> Option<
    Seq<char>,
>
    decreases n,
{
    if n == 0 {
        Some(name)
    } else {
        match hop(hosts, name, (n - 1) as nat) {
            None => None,
            Some(h) => match lookup(hosts, h) {
                None => None,
                Some(v) => v.proxy_jump,
            },
        }
    }
}

/// `chain` leads from `name` through every host that it jumps through, to one
/// that is reached directly.
pub open spec fn is_chain(
    hosts: Seq<(Seq<char>, HostView)>,
    name: Seq<char>,
    chain: Seq<Seq<char>>,
) -> bool {
    &&& chain.len() > 0
    &&& forall|i: int|
        0 <= i < chain.len() ==> hop(hosts, name, i as nat) == Some(#[trigger] chain[i])
            && lookup(hosts, chain[i]) is Some
    &&& hop(hosts, name, chain.len()) is None
}

/// The hosts that a connection to `name` goes through, `name` first. There is
/// no way that takes more jumps than there are hosts: such a one goes round in
/// circles.
pub fn proxy_chain(cfg: &Config, name: &str) -> (r: Result<Vec<String>>)
    ensures
        match r {
            Ok(chain) => is_chain(cfg.hosts@, name@, views(chain@)) && chain@.len()
                <= cfg.hosts@.len() + 1,
            Err(e) => match e {
                SshError::UnknownHost(h) => lookup(cfg.hosts@, h@) is None && exists|i: int|
                    0 <= i <= cfg.hosts@.len() && #[trigger] hop(cfg.hosts@, name@, i as nat)
                        == Some(h@),
                SshError::Config(m) => m@ == "host '"@ + name@
                    + "': proxy_jump goes round in circles"@ && hop(
                    cfg.hosts@,
                    name@,
                    cfg.hosts@.len() + 1,
                ) is Some,
                _ => false,
            },
        },
{
    let ghost hosts = cfg.hosts@;
    let n: usize = cfg.hosts.len();
    let mut chain: Vec<String> = Vec::new();
    let mut at: String = name.to_owned();
    let mut k: usize = 0;
    loop
        invariant
            hosts == cfg.hosts@,
            n == hosts.len(),
            k <= n,
            chain@.len() == k,
            hop(hosts, name@, k as nat) == Some(at@),
            forall|i: int|
                0 <= i < k ==> hop(hosts, name@, i as nat) == Some(#[trigger] views(chain@)[i])
                    && lookup(hosts, views(chain@)[i]) is Some,
        decreases n - k,
    {
        let next: Option<String> = match cfg.hosts.get(at.as_str()) {
            None => {
                return Err(SshError::UnknownHost(at));
            },
            Some(h) => match &h.proxy_jump {
                Some(p) => Some(p.clone()),
                None => None,
            },
        };
        let ghost before = views(chain@);
        proof {
            lemma_views_push(chain@, at);
        }
        chain.push(at);
        proof {
            assert forall|i: int| 0 <= i < k + 1 implies hop(hosts, name@, i as nat) == Some(
                #[trigger] views(chain@)[i],
            ) && lookup(hosts, views(chain@)[i]) is Some by {
                if i < k {
                    assert(views(chain@)[i] == before[i]);
                }
            }
        }
        match next {
            None => {
                return Ok(chain);
            },
            Some(p) => {
                if k == n {
                    return Err(
                        SshError::Config(
                            joined3("host '", name, "': proxy_jump goes round in circles"),
                        ),
                    );
                }
                at = p;
            },
        }
        k = k + 1;
    }
}

/// A reload drops exactly the sessions whose hosts are gone or are reached in
/// another way.
pub proof fn law_reload_drops_what_changed(
    active: Seq<Seq<char>>,
    old: Seq<(Seq<char>, HostView)>,
    new: Seq<(Seq<char>, HostView)>,
    windows: bool,
    name: Seq<char>,
)
    ensures
        dropped_by(active, old, new, windows).contains(name) <==> active.contains(name)
            && !survives(lookup(old, name), lookup(new, name), windows),
    decreases active.len(),
{
    let all = dropped_by(active, old, new, windows);
    if active.len() > 0 {
        let less = active.drop_last();
        let before = dropped_by(less, old, new, windows);
        law_reload_drops_what_changed(less, old, new, windows, name);
        if before.contains(name) {
            let k = choose|k: int| 0 <= k < before.len() && before[k] == name;
            assert(all[k] == name);
        }
        if less.contains(name) {
            let k = choose|k: int| 0 <= k < less.len() && less[k] == name;
            assert(active[k] == name);
        }
        if active.contains(name) && !less.contains(name) {
            let k = choose|k: int| 0 <= k < active.len() && active[k] == name;
            if k < less.len() {
                assert(less[k] == name);
            }
            assert(active.last() == name);
            if !survives(lookup(old, name), lookup(new, name), windows) {
                assert(all[all.len() - 1] == name);
            }
        }
        if all.contains(name) && !before.contains(name) {
            let k = choose|k: int| 0 <= k < all.len() && all[k] == name;
            if k < before.len() {
                assert(before[k] == name);
            }
            assert(active[active.len() - 1] == name);
        }
    }
}

/// A host that is declared as it was keeps its session; one that is gone does
/// not, and neither does one with another address, port, user, way to log in or
/// jump host. Its guards and its fingerprint do not matter.
pub proof fn law_session_survives_an_unchanged_host(a: HostView, b: HostView, windows: bool)
    ensures
        survives(Some(a), Some(a), windows),
        !survives(Some(a), None, windows),
        a.addr != b.addr || a.port != b.port || a.user != b.user || a.auth != b.auth || a.proxy_jump
            != b.proxy_jump ==> !survives(Some(a), Some(b), windows),
        survives(
            Some(a),
            Some(
                HostView {
                    guards: b.guards,
                    known_host_fingerprint: b.known_host_fingerprint,
                    ..a
                },
            ),
            windows,
        ),
{
}

/// A session is idle once it was unused for longer than it may be, and not
/// before.
pub proof fn law_session_is_idle_after_its_time(last_used: u64, secs: u64, now: u64)
    requires
        secs <= 1000000000,
        last_used <= now,
    ensures
        is_idle(last_used, now, HumanDuration { secs, millis: 0 }) <==> now - last_used > secs
            * 1000,
{
}

/// A chain begins with the host itself, each host of it is reached through the
/// next, and the last is reached directly.
pub proof fn law_chain_follows_the_jumps(
    hosts: Seq<(Seq<char>, HostView)>,
    name: Seq<char>,
    chain: Seq<Seq<char>>,
)
    requires
        is_chain(hosts, name, chain),
    ensures
        chain[0] == name,
        forall|i: int|
            0 <= i < chain.len() - 1 ==> lookup(hosts, #[trigger] chain[i])->0.proxy_jump == Some(
                chain[i + 1],
            ),
        lookup(hosts, chain.last())->0.proxy_jump is None,
{
    assert(hop(hosts, name, 0) == Some(chain[0]));
    assert forall|i: int| 0 <= i < chain.len() - 1 implies lookup(
        hosts,
        #[trigger] chain[i],
    )->0.proxy_jump == Some(chain[i + 1]) by {
        assert(hop(hosts, name, i as nat) == Some(chain[i]));
        assert(hop(hosts, name, (i + 1) as nat) == Some(chain[i + 1]));
    }
    let last = chain.len() - 1;
    assert(hop(hosts, name, last as nat) == Some(chain[last]));
    assert(hop(hosts, name, chain.len()) is None);
}

} // verus!

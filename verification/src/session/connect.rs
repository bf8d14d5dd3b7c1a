//! Deciding whether to trust a server, and with which keys to log in.

use vstd::prelude::*;

use crate::config::{keys_of, Host, HostView, StrictHostKey};
use crate::errors::{Result, SshError};
use crate::known_hosts::KnownHostMatch;
use crate::paths::{is_same_path, same_path};
use crate::text::{joined2, joined3, same, views};

verus! {

/// Why the server key was refused.
#[derive(Debug)]
pub enum KeyRejection {
    Mismatch { expected: String, actual: String },
    Unknown { actual: String },
    Store(String),
}

/// What to do about a server key.
#[derive(Debug)]
pub enum KeyVerdict {
    Accept,
    /// Pin the key, and accept it once it is pinned.
    Pin,
    Reject(KeyRejection),
}

/// What is said where the pins are missing.
pub const STORE_MISSING: &'static str =
    "known_hosts store unavailable while host key checking is enabled";

/// `v` refuses a key that is not the expected one.
pub open spec fn is_mismatch(v: KeyVerdict, expected: Seq<char>, actual: Seq<char>) -> bool {
    match v {
        KeyVerdict::Reject(KeyRejection::Mismatch { expected: e, actual: a }) => e@ == expected
            && a@ == actual,
        _ => false,
    }
}

/// `v` refuses a key because of the pins.
pub open spec fn is_store_fault(v: KeyVerdict, why: Seq<char>) -> bool {
    match v {
        KeyVerdict::Reject(KeyRejection::Store(w)) => w@ == why,
        _ => false,
    }
}

/// `v` refuses a key that nothing is known of.
pub open spec fn is_unknown(v: KeyVerdict, actual: Seq<char>) -> bool {
    match v {
        KeyVerdict::Reject(KeyRejection::Unknown { actual: a }) => a@ == actual,
        _ => false,
    }
}

/// `v` is what the configured fingerprint, the mode of checking and the pins
/// say of a key.
pub open spec fn judged(
    v: KeyVerdict,
    configured: Option<String>,
    strict: StrictHostKey,
    known: Option<KnownHostMatch>,
    actual: Seq<char>,
) -> bool {
    match configured {
        Some(expected) => if expected@ == actual {
            v is Accept
        } else {
            is_mismatch(v, expected@, actual)
        },
        None => match strict {
            StrictHostKey::Off => v is Accept,
            _ => match known {
                None => is_store_fault(v, STORE_MISSING@),
                Some(KnownHostMatch::Known) => v is Accept,
                Some(KnownHostMatch::Mismatch { expected }) => is_mismatch(v, expected@, actual),
                Some(KnownHostMatch::Unavailable(why)) => is_store_fault(v, why@),
                Some(KnownHostMatch::Unknown) => if strict == StrictHostKey::Tofu {
                    v is Pin
                } else {
                    is_unknown(v, actual)
                },
            },
        },
    }
}

/// Decides about the key that a server showed. `known` is what the pins say of
/// it; nothing where there are none.
pub fn check_server_key(
    configured: &Option<String>,
    strict: StrictHostKey,
    known: Option<KnownHostMatch>,
    actual: &str,
) -> (r: KeyVerdict)
    ensures
        judged(r, *configured, strict, known, actual@),
{
    if let Some(expected) = configured {
        return if same(expected.as_str(), actual) {
            KeyVerdict::Accept
        } else {
            KeyVerdict::Reject(
                KeyRejection::Mismatch { expected: expected.clone(), actual: actual.to_owned() },
            )
        };
    }
    if let StrictHostKey::Off = strict {
        return KeyVerdict::Accept;
    }
    match known {
        None => KeyVerdict::Reject(KeyRejection::Store(STORE_MISSING.to_owned())),
        Some(KnownHostMatch::Known) => KeyVerdict::Accept,
        Some(KnownHostMatch::Mismatch { expected }) => KeyVerdict::Reject(
            KeyRejection::Mismatch { expected, actual: actual.to_owned() },
        ),
        Some(KnownHostMatch::Unavailable(why)) => KeyVerdict::Reject(KeyRejection::Store(why)),
        Some(KnownHostMatch::Unknown) => match strict {
            StrictHostKey::Tofu => KeyVerdict::Pin,
            _ => KeyVerdict::Reject(KeyRejection::Unknown { actual: actual.to_owned() }),
        },
    }
}

/// What follows once pinning a key was tried: a key that could not be pinned is
/// refused.
pub fn after_pin(failed: Option<&str>) -> (r: KeyVerdict)
    ensures
        match failed {
            None => r is Accept,
            Some(e) => is_store_fault(r, "could not persist the new fingerprint: "@ + e@),
        },
{
    match failed {
        None => KeyVerdict::Accept,
        Some(e) => KeyVerdict::Reject(
            KeyRejection::Store(joined2("could not persist the new fingerprint: ", e)),
        ),
    }
}

/// Under every mode but `off`, a key that differs from the pinned one is
/// refused, and a key that nothing is known of is never accepted unpinned.
pub proof fn law_changed_key_is_refused(
    v: KeyVerdict,
    strict: StrictHostKey,
    known: Option<KnownHostMatch>,
    actual: Seq<char>,
)
    requires
        judged(v, None, strict, known, actual),
        strict != StrictHostKey::Off,
        !(known is Some && known->0 is Known),
    ensures
        !(v is Accept),
        known is Some && known->0 is Mismatch ==> v is Reject,
        strict == StrictHostKey::Strict ==> v is Reject,
{
}

/// A fingerprint that the operator wrote down is the only one that is accepted,
/// whatever the mode and the pins.
pub proof fn law_configured_fingerprint_decides(
    v: KeyVerdict,
    expected: String,
    strict: StrictHostKey,
    known: Option<KnownHostMatch>,
    actual: Seq<char>,
)
    requires
        judged(v, Some(expected), strict, known, actual),
    ensures
        v is Accept <==> expected@ == actual,
{
}

/// How a key that nothing is known of is reported under strict checking.
pub open spec fn unknown_key_text(host: Seq<char>, actual: Seq<char>) -> Seq<char> {
    "host '"@ + host
        + "' is not in known_hosts and strict_host_key_checking = \"strict\". Verify the fingerprint "@
        + actual
        + " out-of-band, then pin it as known_host_fingerprint for the host in hosts.toml."@
}

/// `r` reports why a handshake failed: the refusal of the key where there was
/// one, else the failure itself.
pub open spec fn handshake_report(
    r: SshError,
    host: Seq<char>,
    rejection: Option<KeyRejection>,
    e: SshError,
) -> bool {
    match rejection {
        None => r == e,
        Some(KeyRejection::Mismatch { expected, actual }) => match r {
            SshError::FingerprintMismatch { host: h, expected: x, actual: a } => h@ == host && x@
                == expected@ && a@ == actual@,
            _ => false,
        },
        Some(KeyRejection::Unknown { actual }) => r is Config && r->Config_0@ == unknown_key_text(
            host,
            actual@,
        ),
        Some(KeyRejection::Store(why)) => r is Other && r->Other_0@ == "host key check for '"@
            + host + "' could not complete: "@ + why@,
    }
}

/// Turn a handshake failure into the host-key rejection that was recorded, when
/// there is one. Without this a changed key reaches the caller as a generic
/// error whose recovery hint says "retry".
pub fn handshake_error(host: &str, rejection: Option<KeyRejection>, e: SshError) -> (r: SshError)
    ensures
        handshake_report(r, host@, rejection, e),
{
    match rejection {
        None => e,
        Some(KeyRejection::Mismatch { expected, actual }) => SshError::FingerprintMismatch {
            host: host.to_owned(),
            expected,
            actual,
        },
        Some(KeyRejection::Unknown { actual }) => {
            let mut m = joined3(
                "host '",
                host,
                "' is not in known_hosts and strict_host_key_checking = \"strict\". Verify the fingerprint ",
            );
            m.push_str(actual.as_str());
            m.push_str(
                " out-of-band, then pin it as known_host_fingerprint for the host in hosts.toml.",
            );
            SshError::Config(m)
        },
        Some(KeyRejection::Store(why)) => {
            let mut m = joined3("host key check for '", host, "' could not complete: ");
            m.push_str(why.as_str());
            SshError::Other(m)
        },
    }
}

/// A changed key is reported as such, with a hint that says that nothing helps.
pub proof fn law_changed_key_is_reported(
    r: SshError,
    host: Seq<char>,
    expected: String,
    actual: String,
    e: SshError,
)
    requires
        handshake_report(r, host, Some(KeyRejection::Mismatch { expected, actual }), e),
    ensures
        crate::errors::recovery_text(r) == "unrecoverable"@,
        crate::errors::code_of(r) == crate::errors::CODE_FINGERPRINT_MISMATCH,
{
}

// ---------------------------------------------------------------------------
// Keys
// ---------------------------------------------------------------------------

/// Where a path stands first in a list, however it is written there; the length
/// where it does not.
pub open spec fn first_index(s: Seq<Seq<char>>, x: Seq<char>, windows: bool) -> int
    decreases s.len(),
{
    if s.len() == 0 || same_path(s[0], x, windows) {
        0
    } else {
        1 + first_index(s.skip(1), x, windows)
    }
}

/// The list with the preferred entry in front, in place of the one there.
pub open spec fn preferred_first(
    s: Seq<Seq<char>>,
    preferred: Option<Seq<char>>,
    windows: bool,
) -> Seq<Seq<char>> {
    match preferred {
        None => s,
        Some(p) => {
            let i = first_index(s, p, windows);
            if i < s.len() {
                s.update(0, s[i]).update(i, s[0])
            } else {
                s
            }
        },
    }
}

/// The keys to try, in order: the one that authenticated last time comes first
/// (avoids burning an auth round-trip per rejected key on reconnect).
pub fn key_order(host: &Host, preferred: Option<&str>, windows: bool) -> (r: Result<Vec<String>>)
    ensures
        match r {
            Ok(v) => keys_of(host@, windows).len() > 0 && views(v@) == preferred_first(
                keys_of(host@, windows),
                match preferred {
                    Some(p) => Some(p@),
                    None => None,
                },
                windows,
            ),
            Err(e) => keys_of(host@, windows).len() == 0 && e is Config && e->Config_0@
                == "auth=key but no key path for "@ + host.addr@,
        },
{
    let mut keys = host.all_keys_on(windows);
    let ghost all = views(keys@);
    if keys.len() == 0 {
        return Err(
            SshError::Config(joined2("auth=key but no key path for ", host.addr.as_str())),
        );
    }
    if let Some(p) = preferred {
        let mut i: usize = 0;
        assert(all.skip(0) =~= all);
        while i < keys.len() && !is_same_path(keys[i].as_str(), p, windows)
            invariant
                i <= keys@.len(),
                all == views(keys@),
                first_index(all, p@, windows) == i + first_index(
                    all.skip(i as int),
                    p@,
                    windows,
                ),
            decreases keys@.len() - i,
        {
            assert(all.skip(i as int)[0] == keys@[i as int]@);
            assert(all.skip(i as int).skip(1) =~= all.skip(i + 1));
            i = i + 1;
        }
        if i < keys.len() {
            assert(all.skip(i as int)[0] == keys@[i as int]@);
            let first = keys[0].clone();
            let chosen = keys[i].clone();
            keys.set(0, chosen);
            keys.set(i, first);
            assert(views(keys@) =~= all.update(0, all[i as int]).update(i as int, all[0]));
        }
    }
    Ok(keys)
}

/// How trying one key ended.
#[derive(Debug)]
pub enum KeyOutcome {
    Accepted,
    /// The key could not be read: its path and why.
    Unreadable { path: String, why: String },
    Refused,
}

/// `r` is what is reported when no key was accepted: the last thing that went
/// wrong.
pub open spec fn login_report(r: SshError, last: Option<KeyOutcome>, host: HostView) -> bool {
    match last {
        Some(KeyOutcome::Unreadable { path, why }) => r is Config && r->Config_0@ == "load key "@
            + path@ + ": "@ + why@,
        _ => match r {
            SshError::AuthFailed { user, host: h } => user@ == host.user && h@ == host.addr,
            _ => false,
        },
    }
}

/// What is reported when no key was accepted.
pub fn login_error(last: Option<KeyOutcome>, host: &Host) -> (r: SshError)
    ensures
        login_report(r, last, host@),
{
    match last {
        Some(KeyOutcome::Unreadable { path, why }) => {
            let mut m = joined3("load key ", path.as_str(), ": ");
            m.push_str(why.as_str());
            SshError::Config(m)
        },
        _ => SshError::AuthFailed { user: host.user.clone(), host: host.addr.clone() },
    }
}

proof fn lemma_first_index(s: Seq<Seq<char>>, x: Seq<char>, windows: bool)
    ensures
        0 <= first_index(s, x, windows) <= s.len(),
        first_index(s, x, windows) < s.len() ==> same_path(s[first_index(s, x, windows)], x, windows),
        forall|i: int|
            0 <= i < first_index(s, x, windows) ==> !same_path(#[trigger] s[i], x, windows),
    decreases s.len(),
{
    if !(s.len() == 0 || same_path(s[0], x, windows)) {
        let rest = s.skip(1);
        lemma_first_index(rest, x, windows);
        assert forall|i: int| 0 <= i < first_index(s, x, windows) implies !same_path(
            #[trigger] s[i],
            x,
            windows,
        ) by {
            if i > 0 {
                assert(s[i] == rest[i - 1]);
            }
        }
    }
}

/// The key that worked last time is tried first, and every other key is still
/// tried, once.
pub proof fn law_preferred_key_is_tried_first(
    s: Seq<Seq<char>>,
    preferred: Seq<char>,
    windows: bool,
)
    ensures
        preferred_first(s, Some(preferred), windows).len() == s.len(),
        (exists|i: int| 0 <= i < s.len() && same_path(#[trigger] s[i], preferred, windows))
            ==> same_path(preferred_first(s, Some(preferred), windows)[0], preferred, windows),
        preferred_first(s, Some(preferred), windows).to_multiset() == s.to_multiset(),
        preferred_first(s, None, windows) == s,
{
    let i = first_index(s, preferred, windows);
    lemma_first_index(s, preferred, windows);
    let r = preferred_first(s, Some(preferred), windows);
    if i < s.len() {
        vstd::seq_lib::to_multiset_update(s, 0, s[i]);
        vstd::seq_lib::to_multiset_update(s.update(0, s[i]), i, s[0]);
        s.to_multiset_ensures();
        assert(s.to_multiset().contains(s[0]));
        assert(s.to_multiset().contains(s[i]));
        assert(r.to_multiset() =~= s.to_multiset());
    }
}

} // verus!

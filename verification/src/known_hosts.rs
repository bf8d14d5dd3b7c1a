//! Pinned server fingerprints, keyed by the endpoint that showed them.

use vstd::prelude::*;

use crate::text::{decimal, push_decimal, same};

verus! {

/// What the pins say of a fingerprint.
#[derive(Debug, Clone)]
pub enum KnownHostMatch {
    Known,
    Mismatch { expected: String },
    Unknown,
    /// The pins could not be read.
    Unavailable(String),
}

/// A fingerprint and what it is pinned to.
#[derive(Debug)]
struct Pin {
    key: String,
    fingerprint: String,
}

/// The pins, each under a key of its own.
#[derive(Debug)]
pub struct KnownHosts {
    pins: Vec<Pin>,
}

spec fn pin_view(p: Pin) -> (Seq<char>, Seq<char>) {
    (p.key@, p.fingerprint@)
}

impl View for KnownHosts {
    type V = Seq<(Seq<char>, Seq<char>)>;

    closed spec fn view(&self) -> Seq<(Seq<char>, Seq<char>)> {
        Seq::new(self.pins@.len(), |i: int| pin_view(self.pins@[i]))
    }
}

/// No key is pinned twice.
pub open spec fn distinct_keys(s: Seq<(Seq<char>, Seq<char>)>) -> bool {
    forall|i: int, j: int|
        0 <= i < s.len() && 0 <= j < s.len() && (#[trigger] s[i]).0 == (#[trigger] s[j]).0 ==> i
            == j
}

/// Where a key stands; the length where it does not.
pub open spec fn pin_index(s: Seq<(Seq<char>, Seq<char>)>, key: Seq<char>) -> int
    decreases s.len(),
{
    if s.len() == 0 || s[0].0 == key {
        0
    } else {
        1 + pin_index(s.skip(1), key)
    }
}

/// The fingerprint that is pinned to a key.
pub open spec fn pin_of(s: Seq<(Seq<char>, Seq<char>)>, key: Seq<char>) -> Option<Seq<char>> {
    let i = pin_index(s, key);
    if i < s.len() {
        Some(s[i].1)
    } else {
        None
    }
}

/// The pins once `fingerprint` is pinned to `key`.
pub open spec fn with_pin(
    s: Seq<(Seq<char>, Seq<char>)>,
    key: Seq<char>,
    fingerprint: Seq<char>,
) -> Seq<(Seq<char>, Seq<char>)> {
    let i = pin_index(s, key);
    if i < s.len() {
        s.update(i, (key, fingerprint))
    } else {
        s.push((key, fingerprint))
    }
}

/// The pins without the one under `key`.
pub open spec fn without_pin(s: Seq<(Seq<char>, Seq<char>)>, key: Seq<char>) -> Seq<
    (Seq<char>, Seq<char>),
> {
    let i = pin_index(s, key);
    if i < s.len() {
        s.remove(i)
    } else {
        s
    }
}

/// The key of an endpoint: its transport identity.
pub open spec fn endpoint_text(addr: Seq<char>, port: u16) -> Seq<char> {
    addr + ":"@ + decimal(port as nat)
}

/// The fingerprint that counts for a host: the one of its endpoint, else the
/// one of its alias.
pub open spec fn expected_of(
    s: Seq<(Seq<char>, Seq<char>)>,
    host: Seq<char>,
    addr: Seq<char>,
    port: u16,
) -> Option<Seq<char>> {
    match pin_of(s, endpoint_text(addr, port)) {
        Some(f) => Some(f),
        None => pin_of(s, host),
    }
}

/// `m` is what an expected fingerprint says of the one that a server showed.
pub open spec fn compared(m: KnownHostMatch, expected: Option<Seq<char>>, actual: Seq<char>) -> bool {
    match expected {
        None => m is Unknown,
        Some(f) => if f == actual {
            m is Known
        } else {
            m is Mismatch && m->expected@ == f
        },
    }
}

/// The pins once a new endpoint was accepted. An alias-keyed pin is dropped, so
/// that later checks rely on the endpoint alone.
pub open spec fn pinned(
    s: Seq<(Seq<char>, Seq<char>)>,
    host: Seq<char>,
    addr: Seq<char>,
    port: u16,
    fingerprint: Seq<char>,
) -> Seq<(Seq<char>, Seq<char>)> {
    without_pin(with_pin(s, endpoint_text(addr, port), fingerprint), host)
}

pub proof fn lemma_pin_index(s: Seq<(Seq<char>, Seq<char>)>, key: Seq<char>)
    ensures
        0 <= pin_index(s, key) <= s.len(),
        pin_index(s, key) < s.len() ==> s[pin_index(s, key)].0 == key,
        forall|i: int| 0 <= i < pin_index(s, key) ==> (#[trigger] s[i]).0 != key,
    decreases s.len(),
{
    if s.len() == 0 || s[0].0 == key {
    } else {
        lemma_pin_index(s.skip(1), key);
        assert forall|i: int| 0 <= i < pin_index(s, key) implies (#[trigger] s[i]).0 != key by {
            if i > 0 {
                assert(s[i] == s.skip(1)[i - 1]);
            }
        }
    }
}

proof fn lemma_pin_found(s: Seq<(Seq<char>, Seq<char>)>, key: Seq<char>, i: int)
    requires
        distinct_keys(s),
        0 <= i < s.len(),
        s[i].0 == key,
    ensures
        pin_index(s, key) == i,
{
    lemma_pin_index(s, key);
}

proof fn lemma_with_pin(s: Seq<(Seq<char>, Seq<char>)>, key: Seq<char>, fingerprint: Seq<char>)
    requires
        distinct_keys(s),
    ensures
        distinct_keys(with_pin(s, key, fingerprint)),
        pin_of(with_pin(s, key, fingerprint), key) == Some(fingerprint),
{
    lemma_pin_index(s, key);
    let w = with_pin(s, key, fingerprint);
    let i = pin_index(s, key);
    assert forall|a: int, b: int|
        0 <= a < w.len() && 0 <= b < w.len() && (#[trigger] w[a]).0 == (
        #[trigger] w[b]).0 implies a == b by {
        if a != i && b != i {
            assert(w[a] == s[a] && w[b] == s[b]);
        } else if a == i && b != i {
            assert(w[b] == s[b]);
            if i < s.len() {
                assert(s[i].0 == key);
            }
        } else if b == i && a != i {
            assert(w[a] == s[a]);
            if i < s.len() {
                assert(s[i].0 == key);
            }
        }
    }
    assert(w[i] == (key, fingerprint));
    lemma_pin_found(w, key, i);
}

proof fn lemma_without_pin(s: Seq<(Seq<char>, Seq<char>)>, key: Seq<char>, other: Seq<char>)
    requires
        distinct_keys(s),
    ensures
        distinct_keys(without_pin(s, key)),
        pin_of(without_pin(s, key), key) is None,
        other != key ==> pin_of(without_pin(s, key), other) == pin_of(s, other),
{
    lemma_pin_index(s, key);
    let w = without_pin(s, key);
    let i = pin_index(s, key);
    if i < s.len() {
        assert(w == s.remove(i));
        assert forall|a: int| 0 <= a < w.len() implies #[trigger] w[a] == (if a < i {
            s[a]
        } else {
            s[a + 1]
        }) by {}
        assert forall|a: int, b: int|
            0 <= a < w.len() && 0 <= b < w.len() && (#[trigger] w[a]).0 == (
            #[trigger] w[b]).0 implies a == b by {
            let x = if a < i {
                a
            } else {
                a + 1
            };
            let y = if b < i {
                b
            } else {
                b + 1
            };
            assert(s[x].0 == s[y].0);
        }
        lemma_pin_index(w, key);
        let k = pin_index(w, key);
        if k < w.len() {
            let x = if k < i {
                k
            } else {
                k + 1
            };
            assert(w[k] == s[x]);
            assert(s[x].0 == s[i].0);
        }
        if other != key {
            lemma_pin_index(s, other);
            lemma_pin_index(w, other);
            let a = pin_index(s, other);
            let b = pin_index(w, other);
            if a < s.len() {
                let y = if a < i {
                    a
                } else {
                    a - 1
                };
                assert(w[y] == s[a]);
                lemma_pin_found(w, other, y);
            } else if b < w.len() {
                let x = if b < i {
                    b
                } else {
                    b + 1
                };
                assert(w[b] == s[x]);
                assert(s[x].0 == other);
            }
        }
    }
}

impl KnownHosts {
    #[verifier::type_invariant]
    spec fn each_once(self) -> bool {
        distinct_keys(self@)
    }

    pub fn new() -> (r: Self)
        ensures
            r@ == Seq::<(Seq<char>, Seq<char>)>::empty(),
    {
        let r = KnownHosts { pins: Vec::new() };
        assert(r@ =~= Seq::<(Seq<char>, Seq<char>)>::empty());
        r
    }

    pub fn len(&self) -> (r: usize)
        ensures
            r == self@.len(),
    {
        self.pins.len()
    }

    /// The `i`-th pin: its key and its fingerprint.
    pub fn pin_at(&self, i: usize) -> (r: (&String, &String))
        requires
            i < self@.len(),
        ensures
            (r.0@, r.1@) == self@[i as int],
    {
        (&self.pins[i].key, &self.pins[i].fingerprint)
    }

    fn position(&self, key: &str) -> (r: usize)
        ensures
            r == pin_index(self@, key@),
            r <= self@.len(),
    {
        let ghost all = self@;
        assert(all.skip(0) =~= all);
        let mut i: usize = 0;
        while i < self.pins.len()
            invariant
                i <= self.pins@.len(),
                all == self@,
                all.len() == self.pins@.len(),
                pin_index(all, key@) == i + pin_index(all.skip(i as int), key@),
            decreases self.pins@.len() - i,
        {
            assert(all.skip(i as int)[0].0 == self.pins@[i as int].key@);
            if same(self.pins[i].key.as_str(), key) {
                return i;
            }
            assert(all.skip(i as int).skip(1) =~= all.skip(i + 1));
            i = i + 1;
        }
        i
    }

    /// Pins `fingerprint` to `key`.
    pub fn pin(self, key: String, fingerprint: String) -> (r: Self)
        ensures
            r@ == with_pin(self@, key@, fingerprint@),
    {
        proof {
            use_type_invariant(&self);
        }
        let ghost before = self@;
        let ghost k = key@;
        let ghost f = fingerprint@;
        let i: usize = self.position(key.as_str());
        let KnownHosts { mut pins } = self;
        if i < pins.len() {
            pins.set(i, Pin { key, fingerprint });
        } else {
            pins.push(Pin { key, fingerprint });
        }
        proof {
            let after = Seq::new(pins@.len(), |j: int| pin_view(pins@[j]));
            assert(after =~= with_pin(before, k, f));
            lemma_with_pin(before, k, f);
        }
        KnownHosts { pins }
    }

    /// Drops the pin under `key`.
    pub fn unpin(self, key: &str) -> (r: Self)
        ensures
            r@ == without_pin(self@, key@),
    {
        proof {
            use_type_invariant(&self);
        }
        let ghost before = self@;
        let i: usize = self.position(key);
        let KnownHosts { mut pins } = self;
        if i < pins.len() {
            let _ = pins.remove(i);
        }
        proof {
            let after = Seq::new(pins@.len(), |j: int| pin_view(pins@[j]));
            assert(after =~= without_pin(before, key@));
            lemma_without_pin(before, key@, key@);
        }
        KnownHosts { pins }
    }

    fn pinned_to(&self, key: &str) -> (r: Option<&String>)
        ensures
            match r {
                Some(f) => pin_of(self@, key@) == Some(f@),
                None => pin_of(self@, key@) is None,
            },
    {
        let i: usize = self.position(key);
        if i < self.pins.len() {
            Some(&self.pins[i].fingerprint)
        } else {
            None
        }
    }

    /// What the pins say of the fingerprint that a server showed. Pins are keyed
    /// by `addr:port` (transport identity), with a secondary lookup by alias for
    /// files that pinned by alias only.
    pub fn check(&self, host: &str, addr: &str, port: u16, fingerprint: &str) -> (r: KnownHostMatch)
        ensures
            compared(r, expected_of(self@, host@, addr@, port), fingerprint@),
    {
        let endpoint = endpoint_key(addr, port);
        let expected = match self.pinned_to(endpoint.as_str()) {
            Some(f) => Some(f),
            None => self.pinned_to(host),
        };
        match expected {
            None => KnownHostMatch::Unknown,
            Some(f) => if same(f.as_str(), fingerprint) {
                KnownHostMatch::Known
            } else {
                KnownHostMatch::Mismatch { expected: f.clone() }
            },
        }
    }

    /// Pins what a new endpoint showed, and drops any alias-keyed pin of the
    /// host.
    pub fn add(self, host: &str, addr: &str, port: u16, fingerprint: &str) -> (r: Self)
        ensures
            r@ == pinned(self@, host@, addr@, port, fingerprint@),
    {
        let with = self.pin(endpoint_key(addr, port), fingerprint.to_owned());
        with.unpin(host)
    }
}

/// The key of an endpoint.
pub fn endpoint_key(addr: &str, port: u16) -> (r: String)
    ensures
        r@ == endpoint_text(addr@, port),
{
    let mut s = addr.to_owned();
    s.push_str(":");
    push_decimal(&mut s, port as u64);
    s
}

/// Once an endpoint is pinned, the fingerprint that it showed is the one that is
/// expected of it. The alias must not read like an endpoint: one that reads like
/// this endpoint takes the new pin away with it.
pub proof fn law_pin_is_expected(
    s: Seq<(Seq<char>, Seq<char>)>,
    host: Seq<char>,
    addr: Seq<char>,
    port: u16,
    fingerprint: Seq<char>,
)
    requires
        distinct_keys(s),
        host != endpoint_text(addr, port),
    ensures
        expected_of(pinned(s, host, addr, port, fingerprint), host, addr, port) == Some(
            fingerprint,
        ),
        distinct_keys(pinned(s, host, addr, port, fingerprint)),
{
    let key = endpoint_text(addr, port);
    lemma_with_pin(s, key, fingerprint);
    lemma_without_pin(with_pin(s, key, fingerprint), host, key);
}

/// Pinning one endpoint changes nothing of any other.
pub proof fn law_pinning_touches_no_other(
    s: Seq<(Seq<char>, Seq<char>)>,
    host: Seq<char>,
    addr: Seq<char>,
    port: u16,
    fingerprint: Seq<char>,
    other: Seq<char>,
)
    requires
        distinct_keys(s),
        other != endpoint_text(addr, port),
        other != host,
    ensures
        pin_of(pinned(s, host, addr, port, fingerprint), other) == pin_of(s, other),
{
    let key = endpoint_text(addr, port);
    let w = with_pin(s, key, fingerprint);
    lemma_with_pin(s, key, fingerprint);
    lemma_without_pin(w, host, other);
    lemma_pin_index(s, key);
    lemma_pin_index(s, other);
    lemma_pin_index(w, other);
    let i = pin_index(s, other);
    let j = pin_index(w, other);
    if i < s.len() {
        assert(w[i] == s[i]);
        if j < i {
            assert(w[j].0 == other);
        }
    } else if j < w.len() {
        assert(w[j].0 == other);
        if j < s.len() {
            assert(w[j] == s[j] || w[j].0 == key);
        }
    }
}

/// The pin of an endpoint counts before that of an alias, which counts where the
/// endpoint has none.
pub proof fn law_endpoint_counts_before_alias(
    s: Seq<(Seq<char>, Seq<char>)>,
    host: Seq<char>,
    addr: Seq<char>,
    port: u16,
)
    ensures
        pin_of(s, addr + seq![':'] + decimal(port as nat)) is Some ==> expected_of(
            s,
            host,
            addr,
            port,
        ) == pin_of(s, addr + seq![':'] + decimal(port as nat)),
        pin_of(s, addr + seq![':'] + decimal(port as nat)) is None ==> expected_of(
            s,
            host,
            addr,
            port,
        ) == pin_of(s, host),
{
    reveal_strlit(":");
    assert(":"@ =~= seq![':']);
}

/// A key is known only where it is the one that was pinned, and unknown only
/// where none was; another key than the pinned one is always told apart.
pub proof fn law_only_the_pinned_key_is_known(
    m: KnownHostMatch,
    expected: Option<Seq<char>>,
    actual: Seq<char>,
)
    requires
        compared(m, expected, actual),
    ensures
        m is Known <==> expected == Some(actual),
        m is Unknown <==> expected is None,
        m is Mismatch <==> expected is Some && expected != Some(actual),
        m matches KnownHostMatch::Mismatch { expected: e } ==> expected == Some(e@),
{
}

} // verus!

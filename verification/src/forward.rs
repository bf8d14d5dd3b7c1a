//! Local TCP to remote TCP port forwarding: the address that is bound, and what
//! is said when that fails.

use vstd::prelude::*;
use vstd::string::*;

use crate::errors::SshError;
use crate::text::{decimal, digits_value, joined3, law_decimal_reads_back, push_decimal};

verus! {

/// A tunnel listens on the loopback interface only.
pub open spec fn bind_text(local_port: nat) -> Seq<char> {
    "127.0.0.1:"@ + decimal(local_port)
}

/// The address that a tunnel listens on.
pub fn bind_address(local_port: u16) -> (r: String)
    ensures
        r@ == bind_text(local_port as nat),
{
    let mut s = "127.0.0.1:".to_owned();
    push_decimal(&mut s, local_port as u64);
    s
}

/// The error of a listener that could not be bound.
pub fn bind_failed(local_port: u16, why: &str) -> (e: SshError)
    ensures
        e is Other,
        e->Other_0@ == "bind "@ + bind_text(local_port as nat) + ": "@ + why@,
{
    let address = bind_address(local_port);
    let mut m = joined3("bind ", address.as_str(), ": ");
    m.push_str(why);
    SshError::Other(m)
}

/// A tunnel can be reached from the machine itself only, and on the port that was
/// asked for.
pub proof fn law_tunnel_listens_on_loopback(local_port: nat)
    ensures
        bind_text(local_port).take(10) == seq!['1', '2', '7', '.', '0', '.', '0', '.', '1', ':'],
        digits_value(bind_text(local_port).skip(10)) == local_port,
{
    reveal_strlit("127.0.0.1:");
    law_decimal_reads_back(local_port);
    let s = bind_text(local_port);
    assert(s.take(10) =~= seq!['1', '2', '7', '.', '0', '.', '0', '.', '1', ':']);
    assert(s.skip(10) =~= decimal(local_port));
}

} // verus!

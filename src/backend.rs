use vstd::prelude::*;
use crate::text::{dec, decimal};

verus! {

/// One running instance of a function: its IPv4 address and its instance
/// identifier. Two backends with different instance identifiers are different
/// even at the same address.
#[derive(Clone, Copy, Debug, PartialEq, Eq, Structural, Hash)]
pub struct Backend {
    pub ip: u32,
    pub container_id: u128,
}

impl Backend {
    /// The backend as a plain pair of integers.
    pub open spec fn pair(self) -> (u32, u128) {
        (self.ip, self.container_id)
    }
}

/// The octets of an address, most significant first (`k` from 0 to 3).
pub open spec fn octet(ip: u32, k: int) -> u32 {
    if k == 0 {
        (ip >> 24u32) & 0xff
    } else if k == 1 {
        (ip >> 16u32) & 0xff
    } else if k == 2 {
        (ip >> 8u32) & 0xff
    } else {
        ip & 0xff
    }
}

/// The dotted-decimal text of an IPv4 address.
pub open spec fn ip_text(ip: u32) -> Seq<char> {
    dec(octet(ip, 0) as nat) + seq!['.'] + dec(octet(ip, 1) as nat) + seq!['.'] + dec(
        octet(ip, 2) as nat,
    ) + seq!['.'] + dec(octet(ip, 3) as nat)
}

/// The name under which a backend stands on a ring: its address, a dash, and
/// its instance identifier in decimal.
pub open spec fn node_name(b: Backend) -> Seq<char> {
    ip_text(b.ip) + seq!['-'] + dec(b.container_id as nat)
}

/// Writes an IPv4 address in dotted-decimal form.
pub fn format_ip(ip: u32) -> (r: String)
    ensures
        r@ == ip_text(ip),
{
    proof {
        reveal_strlit(".");
    }
    let mut r = decimal(((ip >> 24u32) & 0xff) as u128);
    r.append(".");
    r.append(decimal(((ip >> 16u32) & 0xff) as u128).as_str());
    r.append(".");
    r.append(decimal(((ip >> 8u32) & 0xff) as u128).as_str());
    r.append(".");
    r.append(decimal((ip & 0xff) as u128).as_str());
    assert(r@ =~= ip_text(ip));
    r
}

impl Backend {
    /// The name of this backend on a ring.
    pub fn name(&self) -> (r: String)
        ensures
            r@ == node_name(*self),
    {
        proof {
            reveal_strlit("-");
        }
        let mut r = format_ip(self.ip);
        r.append("-");
        r.append(decimal(self.container_id).as_str());
        r
    }
}

impl conhash::Node for Backend {
    fn name(&self) -> String {
        Backend::name(self)
    }
}

} // verus!

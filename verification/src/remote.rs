//! The remote agent's side of the system: its command-line surface and
//! the choice of a listening address inside a configured network.

pub mod ocf;

use crate::strutil::{all_digits, digits_val, parse_u16, split_char, split_char_spec};
use vstd::prelude::*;

verus! {

/// Command-line options of the remote agent.
pub struct Cli {
    /// When a network is given, the agent listens only on an address in
    /// that network, and refuses to start without one.
    pub network: Option<String>,
    pub port: Option<u16>,
    pub verbose: bool,
    /// In the test harness, an identifier distinguishing agents that share
    /// one machine.
    pub test_id: Option<String>,
    /// The directory holding the resource-agent scripts.
    pub ocf_root: Option<String>,
    /// Wrap connections in mutual TLS; must match the manager's setting.
    pub mtls: bool,
}

/// One dotted-quad component: a nonempty digit string valued at most 255.
pub open spec fn valid_quad_part(p: Seq<char>) -> bool {
    p.len() > 0 && all_digits(p) && digits_val(p) <= 255
}

/// `s` has the shape `a.b.c.d/p` with each of `a..d` at most 255 and `p`
/// at most 32.
pub open spec fn valid_cidr(s: Seq<char>) -> bool {
    let parts = split_char_spec(s, '/');
    &&& parts.len() == 2
    &&& {
        let quad = split_char_spec(parts[0], '.');
        &&& quad.len() == 4
        &&& valid_quad_part(quad[0])
        &&& valid_quad_part(quad[1])
        &&& valid_quad_part(quad[2])
        &&& valid_quad_part(quad[3])
    }
    &&& parts[1].len() > 0
    &&& all_digits(parts[1])
    &&& digits_val(parts[1]) <= 32
}

/// The network base address named by a well-formed network string.
pub open spec fn cidr_base(s: Seq<char>) -> int {
    let parts = split_char_spec(s, '/');
    let quad = split_char_spec(parts[0], '.');
    digits_val(quad[0]) * 0x1000000 + digits_val(quad[1]) * 0x10000 + digits_val(quad[2]) * 0x100
        + digits_val(quad[3])
}

/// The prefix length named by a well-formed network string.
pub open spec fn cidr_prefix_len(s: Seq<char>) -> int {
    digits_val(split_char_spec(s, '/')[1])
}

/// Parse a network given in slash notation. Returns the base address and
/// prefix length exactly when the string is well formed.
pub fn parse_ipv4_cidr(s: &str) -> (r: Option<(u32, u8)>)
    ensures
        r.is_some() == valid_cidr(s@),
        match r {
            Some((base, plen)) => base as int == cidr_base(s@) && plen as int == cidr_prefix_len(
                s@,
            ),
            None => true,
        },
{
    let parts = split_char(s, '/');
    if parts.len() != 2 {
        return None;
    }
    proof {
        assert(parts.deep_view()[0] == parts@[0]@);
        assert(parts.deep_view()[1] == parts@[1]@);
    }
    let quad = split_char(parts[0].as_str(), '.');
    if quad.len() != 4 {
        return None;
    }
    proof {
        assert(quad.deep_view()[0] == quad@[0]@);
        assert(quad.deep_view()[1] == quad@[1]@);
        assert(quad.deep_view()[2] == quad@[2]@);
        assert(quad.deep_view()[3] == quad@[3]@);
    }
    let mut vals: [u32; 4] = [0, 0, 0, 0];
    let v0 = parse_u16(quad[0].as_str());
    let v1 = parse_u16(quad[1].as_str());
    let v2 = parse_u16(quad[2].as_str());
    let v3 = parse_u16(quad[3].as_str());
    let b0 = match v0 {
        Some(v) if v <= 255 => v,
        _ => {
            return None;
        },
    };
    let b1 = match v1 {
        Some(v) if v <= 255 => v,
        _ => {
            return None;
        },
    };
    let b2 = match v2 {
        Some(v) if v <= 255 => v,
        _ => {
            return None;
        },
    };
    let b3 = match v3 {
        Some(v) if v <= 255 => v,
        _ => {
            return None;
        },
    };
    let plen = match parse_u16(parts[1].as_str()) {
        Some(v) if v <= 32 => v,
        _ => {
            return None;
        },
    };
    let base: u32 = (b0 as u32) * 0x1000000 + (b1 as u32) * 0x10000 + (b2 as u32) * 0x100 + (
    b3 as u32);
    Some((base, plen as u8))
}

/// `addr` lies in the network of `base` with the given prefix length.
pub open spec fn in_network(addr: u32, base: u32, plen: int) -> bool {
    plen <= 0 || (addr >> ((32 - plen) as u32)) == (base >> ((32 - plen) as u32))
}

/// Decide whether an address lies in a network.
pub fn address_in_network(addr: u32, base: u32, plen: u8) -> (r: bool)
    requires
        plen <= 32,
    ensures
        r == in_network(addr, base, plen as int),
{
    if plen == 0 {
        true
    } else {
        let sh: u32 = 32 - (plen as u32);
        (addr >> sh) == (base >> sh)
    }
}

/// The first of the machine's addresses that lies in the configured
/// network: the address the agent should listen on. `None` exactly when
/// no address qualifies.
pub fn choose_listening_address(addrs: &Vec<u32>, base: u32, plen: u8) -> (r: Option<u32>)
    requires
        plen <= 32,
    ensures
        match r {
            Some(a) => exists|i: int|
                {
                    &&& 0 <= i < addrs@.len()
                    &&& addrs@[i] == a
                    &&& in_network(a, base, plen as int)
                    &&& forall|j: int| 0 <= j < i ==> !in_network(#[trigger] addrs@[j], base, plen as int)
                },
            None => forall|i: int|
                0 <= i < addrs@.len() ==> !in_network(#[trigger] addrs@[i], base, plen as int),
        },
{
    let mut i: usize = 0;
    while i < addrs.len()
        invariant
            0 <= i <= addrs@.len(),
            plen <= 32,
            forall|j: int| 0 <= j < i ==> !in_network(#[trigger] addrs@[j], base, plen as int),
        decreases addrs@.len() - i,
    {
        if address_in_network(addrs[i], base, plen) {
            return Some(addrs[i]);
        }
        i = i + 1;
    }
    None
}

} // verus!

//! Addresses and networks.

use vstd::arithmetic::power2::*;
use vstd::prelude::*;
use vstd::string::*;

use crate::text;
use crate::text::{push_bytes, push_decimal};

verus! {

/// An IP address as a number, its first octet the most significant.
#[derive(Clone, Copy, PartialEq, Eq, Structural, Debug)]
pub enum IpAddr {
    V4(u32),
    V6(u128),
}

/// An IP network: an address and the number of leading bits that count.
#[derive(Clone, Copy, PartialEq, Eq, Structural, Debug)]
pub enum IpNet {
    V4 { addr: u32, prefix: u8 },
    V6 { addr: u128, prefix: u8 },
}

/// The `k` lowest octets of a number, the most significant first.
pub open spec fn be_bytes(n: nat, k: nat) -> Seq<u8>
    decreases k,
{
    if k == 0 {
        seq![]
    } else {
        be_bytes(n / 256, (k - 1) as nat).push((n % 256) as u8)
    }
}

/// The `k` lowest octets of a number, the least significant first.
pub open spec fn le_bytes(n: nat, k: nat) -> Seq<u8>
    decreases k,
{
    if k == 0 {
        seq![]
    } else {
        seq![(n % 256) as u8] + le_bytes(n / 256, (k - 1) as nat)
    }
}

/// Appends the `k` lowest octets of `n`, the most significant first.
pub fn push_be(out: &mut Vec<u8>, n: u128, k: usize)
    ensures
        final(out)@ == old(out)@ + be_bytes(n as nat, k as nat),
    decreases k,
{
    if k > 0 {
        push_be(out, n / 256, k - 1);
        out.push((n % 256) as u8);
    }
    assert(out@ =~= old(out)@ + be_bytes(n as nat, k as nat));
}

/// Appends the `k` lowest octets of `n`, the least significant first.
pub fn push_le(out: &mut Vec<u8>, n: u128, k: usize)
    ensures
        final(out)@ == old(out)@ + le_bytes(n as nat, k as nat),
    decreases k,
{
    if k > 0 {
        out.push((n % 256) as u8);
        push_le(out, n / 256, k - 1);
    }
    assert(out@ =~= old(out)@ + le_bytes(n as nat, k as nat));
}

/// The usual text of an IPv6 address, as `Display` of the standard library's address type
/// writes it.
pub uninterp spec fn ipv6_text(addr: u128) -> Seq<char>;

/// `Display` of the standard library's IPv6 address, reached through `ipnet::Ipv6Net::addr`.
#[verifier::external_body]
fn write_ipv6(addr: u128) -> (r: String)
    ensures
        r@ == ipv6_text(addr),
{
    ipnet::Ipv6Net::new_assert(addr.to_be_bytes().into(), 128).addr().to_string()
}

impl IpAddr {
    /// An IPv4 address from its octets.
    pub fn v4(a: u8, b: u8, c: u8, d: u8) -> (r: IpAddr)
        ensures
            r == IpAddr::V4((a * 0x1000000 + b * 0x10000 + c * 0x100 + d) as u32),
    {
        IpAddr::V4(a as u32 * 0x1000000 + b as u32 * 0x10000 + c as u32 * 0x100 + d as u32)
    }

    /// The usual text of the address.
    pub open spec fn text(self) -> Seq<u8> {
        match self {
            IpAddr::V4(a) => text::decimal_bytes((a / 0x1000000) as nat) + seq![0x2eu8]
                + text::decimal_bytes((a / 0x10000 % 256) as nat) + seq![0x2eu8]
                + text::decimal_bytes((a / 0x100 % 256) as nat) + seq![0x2eu8]
                + text::decimal_bytes((a % 256) as nat),
            IpAddr::V6(a) => vstd::utf8::encode_utf8(ipv6_text(a)),
        }
    }

    /// The usual text of the address.
    pub fn to_text(&self) -> (r: Vec<u8>)
        ensures
            r@ == self.text(),
    {
        let mut out: Vec<u8> = Vec::new();
        match *self {
            IpAddr::V4(a) => {
                push_decimal(&mut out, (a / 0x1000000) as u64);
                out.push(0x2e);
                push_decimal(&mut out, (a / 0x10000 % 256) as u64);
                out.push(0x2e);
                push_decimal(&mut out, (a / 0x100 % 256) as u64);
                out.push(0x2e);
                push_decimal(&mut out, (a % 256) as u64);
            },
            IpAddr::V6(a) => {
                push_bytes(&mut out, write_ipv6(a).as_str().as_bytes());
            },
        }
        assert(out@ =~= self.text());
        out
    }
}

impl IpNet {
    /// The prefix is no longer than an address.
    pub open spec fn wf(self) -> bool {
        match self {
            IpNet::V4 { prefix, .. } => prefix <= 32,
            IpNet::V6 { prefix, .. } => prefix <= 128,
        }
    }

    /// Whether an address lies in the network: it is of the same family and agrees in the leading
    /// bits that count.
    pub open spec fn holds(self, ip: IpAddr) -> bool {
        match (self, ip) {
            (IpNet::V4 { addr, prefix }, IpAddr::V4(a)) => addr as int / pow2(
                (32 - prefix) as nat,
            ) as int == a as int / pow2((32 - prefix) as nat) as int,
            (IpNet::V6 { addr, prefix }, IpAddr::V6(a)) => addr as int / pow2(
                (128 - prefix) as nat,
            ) as int == a as int / pow2((128 - prefix) as nat) as int,
            _ => false,
        }
    }

    /// Whether an address lies in the network.
    pub fn contains(&self, ip: &IpAddr) -> (r: bool)
        requires
            self.wf(),
        ensures
            r == self.holds(*ip),
    {
        net_contains(*self, *ip)
    }
}

/// `ipnet::IpNet::contains`, the address taken as the network of that address alone: whether it
/// lies between the first and the last address of the network. A network and an address of
/// different families have nothing in common.
#[verifier::external_body]
fn net_contains(net: IpNet, ip: IpAddr) -> (r: bool)
    requires
        net.wf(),
    ensures
        r == net.holds(ip),
{
    let outer = match net {
        IpNet::V4 { addr, prefix } => ipnet::IpNet::new_assert(addr.to_be_bytes().into(), prefix),
        IpNet::V6 { addr, prefix } => ipnet::IpNet::new_assert(addr.to_be_bytes().into(), prefix),
    };
    let inner = match ip {
        IpAddr::V4(a) => ipnet::IpNet::new_assert(a.to_be_bytes().into(), 32),
        IpAddr::V6(a) => ipnet::IpNet::new_assert(a.to_be_bytes().into(), 128),
    };
    outer.contains(&inner)
}

/// What `ipnet::IpNet` reads in a text: an address, a slash and a prefix length.
pub uninterp spec fn parsed_net(s: Seq<char>) -> Option<IpNet>;

/// `<ipnet::IpNet as FromStr>::from_str`: reads a network, or gives the text of the crate's error,
/// which is always the same. The prefix length it gives fits the family. What texts it accepts is
/// not stated.
#[verifier::external_body]
pub(crate) fn parse_net(s: &str) -> (r: Result<IpNet, String>)
    ensures
        match r {
            Ok(n) => parsed_net(s@) == Some(n) && n.wf(),
            Err(e) => parsed_net(s@) is None && e@ == "invalid IP address syntax"@,
        },
{
    match s.parse::<ipnet::IpNet>() {
        Ok(ipnet::IpNet::V4(n)) => {
            Ok(IpNet::V4 { addr: u32::from(n.addr()), prefix: n.prefix_len() })
        }
        Ok(ipnet::IpNet::V6(n)) => {
            Ok(IpNet::V6 { addr: u128::from(n.addr()), prefix: n.prefix_len() })
        }
        Err(e) => Err(e.to_string()),
    }
}

/// Whether any network of a list holds an address.
pub open spec fn any_holds(nets: Seq<IpNet>, ip: IpAddr) -> bool {
    exists|i: int| 0 <= i < nets.len() && (#[trigger] nets[i]).holds(ip)
}

/// Whether every network of a list is well-formed.
pub open spec fn nets_wf(nets: Seq<IpNet>) -> bool {
    forall|i: int| 0 <= i < nets.len() ==> (#[trigger] nets[i]).wf()
}

/// Whether any network of a list holds an address.
pub fn any_contains(nets: &[IpNet], ip: &IpAddr) -> (r: bool)
    requires
        nets_wf(nets@),
    ensures
        r == any_holds(nets@, *ip),
{
    for i in 0..nets.len()
        invariant
            nets_wf(nets@),
            forall|j: int| 0 <= j < i ==> !(#[trigger] nets@[j]).holds(*ip),
    {
        if nets[i].contains(ip) {
            return true;
        }
    }
    false
}

} // verus!

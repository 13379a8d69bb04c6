//! IP addresses and networks as plain numbers, with membership.
use vstd::prelude::*;
use vstd::arithmetic::power2::{pow2, lemma2_to64, lemma_pow2_adds, lemma_pow2_pos};
use vstd::bits::{lemma_u32_shr_is_div, lemma_u128_shr_is_div};

verus! {

/// An IPv4 or IPv6 address, as its numeric value.
#[derive(Debug, Clone, Copy, PartialEq, Eq, Structural)]
pub enum IpAddress {
    V4(u32),
    V6(u128),
}

/// A network: an address and the length of its prefix.
#[derive(Debug, Clone, Copy, PartialEq, Eq, Structural)]
pub struct IpNetwork {
    pub addr: IpAddress,
    pub prefix: u8,
}

impl IpNetwork {
    /// The prefix is no longer than the address.
    pub open spec fn wf(self) -> bool {
        match self.addr {
            IpAddress::V4(_) => self.prefix <= 32,
            IpAddress::V6(_) => self.prefix <= 128,
        }
    }
}

/// Whether `ip` lies in `net`: same family, same leading `prefix` bits.
pub open spec fn net_contains(net: IpNetwork, ip: IpAddress) -> bool {
    match (net.addr, ip) {
        (IpAddress::V4(a), IpAddress::V4(b)) => a as nat / pow2((32 - net.prefix) as nat) == b as nat
            / pow2((32 - net.prefix) as nat),
        (IpAddress::V6(a), IpAddress::V6(b)) => a as nat / pow2((128 - net.prefix) as nat) == b as nat
            / pow2((128 - net.prefix) as nat),
        _ => false,
    }
}

/// The single-address network of `ip`.
pub open spec fn host_net(ip: IpAddress) -> IpNetwork {
    match ip {
        IpAddress::V4(_) => IpNetwork { addr: ip, prefix: 32 },
        IpAddress::V6(_) => IpNetwork { addr: ip, prefix: 128 },
    }
}

/// What ipnet's `IpNet::from_str` reads from a string.
pub uninterp spec fn cidr_of(s: Seq<char>) -> Option<IpNetwork>;

/// What `IpAddr::from_str` reads from a string.
pub uninterp spec fn ip_literal_of(s: Seq<char>) -> Option<IpAddress>;

/// What `IpAddr`'s `Display` writes for an address.
pub uninterp spec fn ip_text_of(ip: IpAddress) -> Seq<char>;

/// Relies on ipnet's `IpNet::from_str`: the network written as
/// `address/prefix`, whose prefix is never longer than the address.
#[verifier::external_body]
pub(crate) fn parse_cidr(s: &str) -> (r: Option<IpNetwork>)
    ensures
        r == cidr_of(s@),
        r matches Some(n) ==> n.wf(),
{
    match s.parse::<ipnet::IpNet>() {
        Ok(ipnet::IpNet::V4(n)) => Some(IpNetwork { addr: IpAddress::V4(u32::from(n.addr())), prefix: n.prefix_len() }),
        Ok(ipnet::IpNet::V6(n)) => Some(IpNetwork { addr: IpAddress::V6(u128::from(n.addr())), prefix: n.prefix_len() }),
        Err(_) => None,
    }
}

/// Relies on `IpAddr::from_str`: the address written as an IPv4 or IPv6 literal.
#[verifier::external_body]
pub(crate) fn parse_ip(s: &str) -> (r: Option<IpAddress>)
    ensures
        r == ip_literal_of(s@),
{
    match s.parse::<core::net::IpAddr>() {
        Ok(core::net::IpAddr::V4(a)) => Some(IpAddress::V4(u32::from(a))),
        Ok(core::net::IpAddr::V6(a)) => Some(IpAddress::V6(u128::from(a))),
        Err(_) => None,
    }
}

/// Relies on `IpAddr`'s `Display`: the textual form of the address.
#[verifier::external_body]
pub(crate) fn ip_text(ip: IpAddress) -> (r: String)
    ensures
        r@ == ip_text_of(ip),
{
    match ip {
        IpAddress::V4(a) => core::net::IpAddr::V4(core::net::Ipv4Addr::from(a)).to_string(),
        IpAddress::V6(a) => core::net::IpAddr::V6(core::net::Ipv6Addr::from(a)).to_string(),
    }
}

/// The single-address network of `ip`.
pub fn host_network(ip: IpAddress) -> (r: IpNetwork)
    ensures
        r == host_net(ip),
        r.wf(),
{
    match ip {
        IpAddress::V4(_) => IpNetwork { addr: ip, prefix: 32 },
        IpAddress::V6(_) => IpNetwork { addr: ip, prefix: 128 },
    }
}

impl IpNetwork {
    /// Whether `ip` lies in this network.
    pub fn contains(&self, ip: IpAddress) -> (r: bool)
        requires
            self.wf(),
        ensures
            r == net_contains(*self, ip),
    {
        match (self.addr, ip) {
            (IpAddress::V4(a), IpAddress::V4(b)) => {
                if self.prefix == 0 {
                    proof {
                        lemma2_to64();
                        assert(a as nat / pow2(32) == 0) by (nonlinear_arith)
                            requires a as nat <= u32::MAX, pow2(32) == 0x100000000;
                        assert(b as nat / pow2(32) == 0) by (nonlinear_arith)
                            requires b as nat <= u32::MAX, pow2(32) == 0x100000000;
                    }
                    true
                } else {
                    let shift = (32 - self.prefix) as u32;
                    proof {
                        lemma_u32_shr_is_div(a, shift);
                        lemma_u32_shr_is_div(b, shift);
                    }
                    (a >> shift) == (b >> shift)
                }
            },
            (IpAddress::V6(a), IpAddress::V6(b)) => {
                if self.prefix == 0 {
                    proof {
                        lemma2_to64();
                        lemma_pow2_adds(64, 64);
                        lemma_pow2_pos(64);
                        assert(pow2(128) == pow2(64) * pow2(64));
                        assert(a as nat / pow2(128) == 0) by (nonlinear_arith)
                            requires a as nat <= u128::MAX, pow2(64) == 0x10000000000000000, pow2(128) == pow2(64) * pow2(64);
                        assert(b as nat / pow2(128) == 0) by (nonlinear_arith)
                            requires b as nat <= u128::MAX, pow2(64) == 0x10000000000000000, pow2(128) == pow2(64) * pow2(64);
                    }
                    true
                } else {
                    let shift = (128 - self.prefix) as u128;
                    proof {
                        lemma_u128_shr_is_div(a, shift);
                        lemma_u128_shr_is_div(b, shift);
                    }
                    (a >> shift) == (b >> shift)
                }
            },
            _ => false,
        }
    }
}

} // verus!

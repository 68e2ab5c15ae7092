//! Subnet arithmetic over 32-bit IPv4 addresses.
//!
//! For a prefix length `p` in `[0, 32]` the netmask has the top `p` bits
//! set, the wildcard is its complement, the network address is the given
//! address with the host bits cleared, and the broadcast address has them
//! set. The usable host range excludes the network and broadcast
//! addresses, except under the `/31` point-to-point and `/32` single-host
//! conventions.
use vstd::prelude::*;
use vstd::arithmetic::power2::{pow2, lemma2_to64, lemma_pow2_strictly_increases, lemma_pow2_pos};
use vstd::bits::lemma_u64_shl_is_mul;
use crate::ipv4::{spec_parse_ipv4, spec_render_ipv4, parse_ipv4, render_ipv4};

verus! {

/// Number of host bits of a prefix length.
pub open spec fn host_bits(prefix: u8) -> nat
    recommends
        prefix <= 32,
{
    (32 - prefix) as nat
}

/// The netmask: the top `prefix` bits set, the host bits zero, so
/// `2^32 - 2^(32 - prefix)`.
pub open spec fn spec_netmask(prefix: u8) -> u32
    recommends
        prefix <= 32,
{
    (0x1_0000_0000 - pow2(host_bits(prefix))) as u32
}

/// The wildcard mask: the host bits set, so `2^(32 - prefix) - 1`.
pub open spec fn spec_wildcard(prefix: u8) -> u32
    recommends
        prefix <= 32,
{
    (pow2(host_bits(prefix)) - 1) as u32
}

/// The network address: the address with its host bits cleared.
pub open spec fn spec_network(addr: u32, prefix: u8) -> u32 {
    addr & spec_netmask(prefix)
}

/// The broadcast address: the network address with its host bits set.
pub open spec fn spec_broadcast(addr: u32, prefix: u8) -> u32 {
    spec_network(addr, prefix) | spec_wildcard(prefix)
}

/// The first usable host address.
pub open spec fn spec_first_host(addr: u32, prefix: u8) -> u32 {
    if prefix >= 31 {
        spec_network(addr, prefix)
    } else {
        (spec_network(addr, prefix) + 1) as u32
    }
}

/// The last usable host address.
pub open spec fn spec_last_host(addr: u32, prefix: u8) -> u32 {
    if prefix == 32 {
        spec_network(addr, prefix)
    } else if prefix == 31 {
        spec_broadcast(addr, prefix)
    } else {
        (spec_broadcast(addr, prefix) - 1) as u32
    }
}

/// The number of usable host addresses.
pub open spec fn spec_host_count(prefix: u8) -> u32
    recommends
        prefix <= 32,
{
    if prefix == 32 {
        1u32
    } else if prefix == 31 {
        2u32
    } else {
        (pow2(host_bits(prefix)) - 2) as u32
    }
}

proof fn lemma_pow2_host_bits(prefix: u8)
    requires
        prefix <= 32,
    ensures
        1 <= pow2(host_bits(prefix)) <= 0x1_0000_0000,
        prefix <= 30 ==> pow2(host_bits(prefix)) >= 4,
        prefix == 32 ==> pow2(host_bits(prefix)) == 1,
        prefix == 31 ==> pow2(host_bits(prefix)) == 2,
        prefix == 0 ==> pow2(host_bits(prefix)) == 0x1_0000_0000,
{
    lemma2_to64();
    lemma_pow2_pos(host_bits(prefix));
    if host_bits(prefix) < 32 {
        lemma_pow2_strictly_increases(host_bits(prefix), 32);
    }
    if prefix <= 30 && host_bits(prefix) > 2 {
        lemma_pow2_strictly_increases(2, host_bits(prefix));
    }
}

/// The netmask and the wildcard are exact complements: they share no bit,
/// together they cover all 32 bits, and their XOR is all ones.
pub proof fn lemma_mask_complement(prefix: u8)
    requires
        prefix <= 32,
    ensures
        spec_wildcard(prefix) == !spec_netmask(prefix),
        spec_netmask(prefix) ^ spec_wildcard(prefix) == 0xFFFF_FFFFu32,
        spec_netmask(prefix) & spec_wildcard(prefix) == 0u32,
        spec_netmask(prefix) | spec_wildcard(prefix) == 0xFFFF_FFFFu32,
{
    lemma_pow2_host_bits(prefix);
    let m = spec_netmask(prefix);
    let w = spec_wildcard(prefix);
    assert(w == 0xFFFF_FFFFu32 - m);
    assert(w == !m) by (bit_vector)
        requires
            w == 0xFFFF_FFFFu32 - m,
    ;
    assert(m ^ !m == 0xFFFF_FFFFu32 && m & !m == 0u32 && m | !m == 0xFFFF_FFFFu32)
        by (bit_vector);
}

/// Every address lies between the network and broadcast addresses of its
/// own subnet.
pub proof fn lemma_network_addr_broadcast(addr: u32, prefix: u8)
    requires
        prefix <= 32,
    ensures
        spec_network(addr, prefix) <= addr <= spec_broadcast(addr, prefix),
{
    lemma_mask_complement(prefix);
    let m = spec_netmask(prefix);
    assert((addr & m) <= addr && addr <= ((addr & m) | !m)) by (bit_vector);
}

/// A `/32` subnet is a single host: one usable address, and the whole
/// range collapses to the network address.
pub proof fn lemma_prefix_32(addr: u32)
    ensures
        spec_host_count(32) == 1,
        spec_first_host(addr, 32) == spec_network(addr, 32),
        spec_last_host(addr, 32) == spec_network(addr, 32),
        spec_broadcast(addr, 32) == spec_network(addr, 32),
{
    lemma_pow2_host_bits(32);
    let n = spec_network(addr, 32);
    assert(n | 0u32 == n) by (bit_vector);
}

/// A `/31` subnet is a point-to-point link: both of its addresses are
/// usable, from the network to the broadcast address.
pub proof fn lemma_prefix_31(addr: u32)
    ensures
        spec_host_count(31) == 2,
        spec_first_host(addr, 31) == spec_network(addr, 31),
        spec_last_host(addr, 31) == spec_broadcast(addr, 31),
{
    lemma_pow2_host_bits(31);
}

/// For prefixes up to `/30` the usable range excludes the network and
/// broadcast addresses, leaving `2^(32 - prefix) - 2` hosts.
pub proof fn lemma_host_range(addr: u32, prefix: u8)
    requires
        prefix <= 30,
    ensures
        spec_host_count(prefix) as nat == pow2(host_bits(prefix)) - 2,
        spec_first_host(addr, prefix) == spec_network(addr, prefix) + 1,
        spec_last_host(addr, prefix) == spec_broadcast(addr, prefix) - 1,
{
    lemma_pow2_host_bits(prefix);
    lemma_mask_complement(prefix);
    let m = spec_netmask(prefix);
    let w = spec_wildcard(prefix);
    assert(addr & m <= m && ((addr & m) | w) >= w) by (bit_vector);
}

/// A `/0` prefix masks nothing: the netmask is zero and the broadcast
/// address is all ones.
pub proof fn lemma_prefix_0(addr: u32)
    ensures
        spec_netmask(0) == 0,
        spec_wildcard(0) == 0xFFFF_FFFFu32,
        spec_network(addr, 0) == 0,
        spec_broadcast(addr, 0) == 0xFFFF_FFFFu32,
{
    lemma_pow2_host_bits(0);
    assert(addr & 0u32 == 0u32 && 0u32 | 0xFFFF_FFFFu32 == 0xFFFF_FFFFu32) by (bit_vector);
}

/// The derived facts of one subnet: the five addresses in dotted-quad
/// text form, and the usable host count.
pub struct SubnetInfo {
    pub netmask: String,
    pub wildcard: String,
    pub network_address: String,
    pub broadcast: String,
    pub first_host: String,
    pub last_host: String,
    pub hosts: u32,
}

/// Every field of `info` is the matching subnet fact of `addr` under
/// `prefix`, the addresses rendered as dotted-quad text.
pub open spec fn subnet_info_matches(info: SubnetInfo, addr: u32, prefix: u8) -> bool {
    &&& info.netmask@ == spec_render_ipv4(spec_netmask(prefix))
    &&& info.wildcard@ == spec_render_ipv4(spec_wildcard(prefix))
    &&& info.network_address@ == spec_render_ipv4(spec_network(addr, prefix))
    &&& info.broadcast@ == spec_render_ipv4(spec_broadcast(addr, prefix))
    &&& info.first_host@ == spec_render_ipv4(spec_first_host(addr, prefix))
    &&& info.last_host@ == spec_render_ipv4(spec_last_host(addr, prefix))
    &&& info.hosts == spec_host_count(prefix)
}

impl SubnetInfo {
    fn new(addr: u32, prefix: u8) -> (r: SubnetInfo)
        requires
            prefix <= 32,
        ensures
            subnet_info_matches(r, addr, prefix),
    {
        proof {
            lemma_pow2_host_bits(prefix);
        }
        let width: u32 = 32 - (prefix as u32);
        let block: u64 = 1u64 << (width as u64);
        proof {
            lemma_u64_shl_is_mul(1u64, width as u64);
        }
        let netmask: u32 = (0x1_0000_0000u64 - block) as u32;
        let wildcard: u32 = !netmask;
        proof {
            lemma_mask_complement(prefix);
        }
        let network: u32 = addr & netmask;
        let broadcast: u32 = network | wildcard;
        let first: u32;
        let last: u32;
        let hosts: u32;
        if prefix == 32 {
            first = network;
            last = network;
            hosts = 1;
        } else if prefix == 31 {
            first = network;
            last = broadcast;
            hosts = 2;
        } else {
            proof {
                assert(addr & netmask <= netmask && (network | wildcard) >= wildcard)
                    by (bit_vector)
                    requires
                        network == addr & netmask,
                ;
            }
            first = network + 1;
            last = broadcast - 1;
            hosts = wildcard - 1;
        }
        SubnetInfo {
            netmask: render_ipv4(netmask),
            wildcard: render_ipv4(wildcard),
            network_address: render_ipv4(network),
            broadcast: render_ipv4(broadcast),
            first_host: render_ipv4(first),
            last_host: render_ipv4(last),
            hosts,
        }
    }
}

/// The two rejection outcomes of input validation.
#[derive(Clone, Copy, Debug, PartialEq, Eq, Structural)]
pub enum SubnetError {
    InvalidAddressFormat,
    InvalidPrefixLength,
}

/// Compute the subnet facts for an address given as dotted-quad text and
/// a prefix length. Fails with `InvalidAddressFormat` exactly when the
/// text does not match the dotted-quad grammar, and with
/// `InvalidPrefixLength` exactly when the text is well-formed but the
/// prefix length exceeds 32.
pub fn calculate_subnet_info(ip: String, mask: u8) -> (r: Result<SubnetInfo, SubnetError>)
    ensures
        match r {
            Ok(info) => spec_parse_ipv4(ip@) is Some && mask <= 32 && subnet_info_matches(
                info,
                spec_parse_ipv4(ip@).unwrap(),
                mask,
            ),
            Err(e) => (e == SubnetError::InvalidAddressFormat && spec_parse_ipv4(ip@) is None) || (
            e == SubnetError::InvalidPrefixLength && spec_parse_ipv4(ip@) is Some && mask > 32),
        },
{
    let parsed = parse_ipv4(ip.as_str());
    match parsed {
        None => Err(SubnetError::InvalidAddressFormat),
        Some(addr) => {
            if mask > 32 {
                Err(SubnetError::InvalidPrefixLength)
            } else {
                Ok(SubnetInfo::new(addr, mask))
            }
        },
    }
}

} // verus!

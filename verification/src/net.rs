//! Addresses and interfaces as plain values, and what is decided about them
//! before any socket is opened.

use vstd::prelude::*;

verus! {

/// An IP address: the 32 bits of an IPv4 address or the 128 bits of an IPv6
/// address, the first byte of the address in the highest bits.
#[derive(Clone, Copy, Debug, PartialEq, Eq, Structural)]
pub enum IpAddress {
    V4(u32),
    V6(u128),
}

impl IpAddress {
    /// The address is an IPv6 address.
    pub open spec fn spec_is_ipv6(self) -> bool {
        self is V6
    }

    /// The address names a multicast group: 224.0.0.0/4 or ff00::/8.
    pub open spec fn spec_is_multicast(self) -> bool {
        match self {
            IpAddress::V4(bits) => 0xe000_0000 <= bits <= 0xefff_ffff,
            IpAddress::V6(bits) => bits >= 0xff00_0000_0000_0000_0000_0000_0000_0000,
        }
    }

    /// The address is an IPv6 unicast address that is valid on one link only:
    /// fe80::/10.
    pub open spec fn spec_is_unicast_link_local(self) -> bool {
        match self {
            IpAddress::V4(_) => false,
            IpAddress::V6(bits) => 0xfe80_0000_0000_0000_0000_0000_0000_0000 <= bits
                <= 0xfebf_ffff_ffff_ffff_ffff_ffff_ffff_ffff,
        }
    }

    /// Tells an IPv6 address from an IPv4 address.
    #[verifier::when_used_as_spec(spec_is_ipv6)]
    pub fn is_ipv6(self) -> (r: bool)
        ensures
            r == self.spec_is_ipv6(),
    {
        match self {
            IpAddress::V4(_) => false,
            IpAddress::V6(_) => true,
        }
    }

    /// Tells whether the address names a multicast group.
    #[verifier::when_used_as_spec(spec_is_multicast)]
    pub fn is_multicast(self) -> (r: bool)
        ensures
            r == self.spec_is_multicast(),
    {
        match self {
            IpAddress::V4(bits) => 0xe000_0000 <= bits && bits <= 0xefff_ffff,
            IpAddress::V6(bits) => bits >= 0xff00_0000_0000_0000_0000_0000_0000_0000,
        }
    }

    /// Tells whether the address is an IPv6 link-local unicast address.
    #[verifier::when_used_as_spec(spec_is_unicast_link_local)]
    pub fn is_unicast_link_local(self) -> (r: bool)
        ensures
            r == self.spec_is_unicast_link_local(),
    {
        match self {
            IpAddress::V4(_) => false,
            IpAddress::V6(bits) => 0xfe80_0000_0000_0000_0000_0000_0000_0000 <= bits && bits
                <= 0xfebf_ffff_ffff_ffff_ffff_ffff_ffff_ffff,
        }
    }
}

/// A socket address: an IP address and a port, and for IPv6 the flow
/// information and the scope, which for a link-local address is the index of
/// the interface that it is valid on.
#[derive(Clone, Copy, Debug, PartialEq, Eq, Structural)]
#[allow(inconsistent_fields)]
pub enum SocketAddress {
    V4 { ip: u32, port: u16 },
    V6 { ip: u128, port: u16, flowinfo: u32, scope_id: u32 },
}

impl SocketAddress {
    /// The IP address of the socket address.
    pub open spec fn spec_ip(self) -> IpAddress {
        match self {
            SocketAddress::V4 { ip, .. } => IpAddress::V4(ip),
            SocketAddress::V6 { ip, .. } => IpAddress::V6(ip),
        }
    }

    /// The socket address with `index` as its scope where it is an IPv6
    /// link-local address, and as it is otherwise.
    pub open spec fn spec_scoped(self, index: u32) -> SocketAddress {
        match self {
            SocketAddress::V4 { .. } => self,
            SocketAddress::V6 { ip, port, flowinfo, scope_id } => if IpAddress::V6(
                ip,
            ).spec_is_unicast_link_local() {
                SocketAddress::V6 { ip, port, flowinfo, scope_id: index }
            } else {
                self
            },
        }
    }

    /// The IP address of the socket address.
    #[verifier::when_used_as_spec(spec_ip)]
    pub fn ip(self) -> (ip: IpAddress)
        ensures
            ip == self.spec_ip(),
    {
        match self {
            SocketAddress::V4 { ip, .. } => IpAddress::V4(ip),
            SocketAddress::V6 { ip, .. } => IpAddress::V6(ip),
        }
    }

    /// Tells an IPv6 socket address from an IPv4 one.
    pub fn is_ipv6(self) -> (r: bool)
        ensures
            r == self.spec_ip().spec_is_ipv6(),
    {
        match self {
            SocketAddress::V4 { .. } => false,
            SocketAddress::V6 { .. } => true,
        }
    }

    /// Sets the scope of a link-local IPv6 address to the interface `index`:
    /// such an address travels without its scope, and is of use only on the
    /// interface that it came in on.
    #[verifier::when_used_as_spec(spec_scoped)]
    pub fn scoped(self, index: u32) -> (r: SocketAddress)
        ensures
            r == self.spec_scoped(index),
    {
        match self {
            SocketAddress::V4 { .. } => self,
            SocketAddress::V6 { ip, port, flowinfo, scope_id } => if IpAddress::V6(
                ip,
            ).is_unicast_link_local() {
                SocketAddress::V6 { ip, port, flowinfo, scope_id: index }
            } else {
                self
            },
        }
    }
}

/// The address to which a unicast socket is bound: the address `unicast` with
/// a port that the system chooses, scoped to the interface `index` where the
/// address is link-local.
pub fn bind_address(unicast: IpAddress, index: u32) -> (r: SocketAddress)
    ensures
        r == match unicast {
            IpAddress::V4(ip) => SocketAddress::V4 { ip, port: 0 },
            IpAddress::V6(ip) => SocketAddress::V6 {
                ip,
                port: 0,
                flowinfo: 0,
                scope_id: if unicast.spec_is_unicast_link_local() {
                    index
                } else {
                    0
                },
            },
        },
{
    match unicast {
        IpAddress::V4(ip) => SocketAddress::V4 { ip, port: 0 },
        IpAddress::V6(ip) => SocketAddress::V6 {
            ip,
            port: 0,
            flowinfo: 0,
            scope_id: if unicast.is_unicast_link_local() {
                index
            } else {
                0
            },
        },
    }
}

/// How a multicast socket names the interface that it uses: by its index for
/// IPv6, by one of its addresses for IPv4.
#[derive(Clone, Copy, Debug, PartialEq, Eq, Structural)]
pub enum InterfaceId {
    Index(u32),
    Address(u32),
}

/// Why a configuration was turned down before the session started.
#[derive(Clone, Copy, Debug, PartialEq, Eq, Structural)]
pub enum ConfigError {
    /// The discovery group and the transfer group are not of one family.
    GroupFamilies,
    /// A group address is no multicast address.
    NotMulticast,
    /// The interface asked for is not there, or no interface will do.
    NoInterface,
    /// The groups are IPv4 and the interface has no IPv4 address.
    NoIpv4Address,
    /// The unicast address asked for is not of the groups' family.
    UnicastFamily,
    /// The interface has no address of the groups' family.
    NoUnicastAddress,
    /// An IPv6 socket was given an interface address, not an index.
    ExpectedIndex,
    /// An IPv4 socket was given an interface index, not an address.
    ExpectedAddress,
}

impl ConfigError {
    /// The error in words.
    pub open spec fn spec_message(&self) -> Seq<char> {
        match self {
            ConfigError::GroupFamilies => "Discovery and transfer sockets must be of the same family."@,
            ConfigError::NotMulticast => "Discovery and transfer addresses must be multicast groups."@,
            ConfigError::NoInterface => "Cannot find requested interface."@,
            ConfigError::NoIpv4Address => "In IPv4 mode the selected interface needs to have at least one IPv4 address assigned to it."@,
            ConfigError::UnicastFamily => "Unicast address must be of the same family as the multicast groups."@,
            ConfigError::NoUnicastAddress => "Cannot find any suitable unicast address on the selected interface."@,
            ConfigError::ExpectedIndex => "Expected index as interface identifier"@,
            ConfigError::ExpectedAddress => "Expected IPv4 address as interface identifier"@,
        }
    }

    /// The error in words.
    pub fn message(&self) -> (text: &'static str)
        ensures
            text@ == self.spec_message(),
    {
        match self {
            ConfigError::GroupFamilies => "Discovery and transfer sockets must be of the same family.",
            ConfigError::NotMulticast => "Discovery and transfer addresses must be multicast groups.",
            ConfigError::NoInterface => "Cannot find requested interface.",
            ConfigError::NoIpv4Address => "In IPv4 mode the selected interface needs to have at least one IPv4 address assigned to it.",
            ConfigError::UnicastFamily => "Unicast address must be of the same family as the multicast groups.",
            ConfigError::NoUnicastAddress => "Cannot find any suitable unicast address on the selected interface.",
            ConfigError::ExpectedIndex => "Expected index as interface identifier",
            ConfigError::ExpectedAddress => "Expected IPv4 address as interface identifier",
        }
    }
}

/// Checks the group that a client listens on for discovery: it has to be a
/// multicast group.
pub fn check_client_group(discovery: SocketAddress) -> (r: Result<(), ConfigError>)
    ensures
        r == if discovery.spec_ip().spec_is_multicast() {
            Ok::<(), ConfigError>(())
        } else {
            Err::<(), ConfigError>(ConfigError::NotMulticast)
        },
{
    if !discovery.ip().is_multicast() {
        return Err(ConfigError::NotMulticast);
    }
    Ok(())
}

/// Checks the groups of a server: both have to be of one family, and both
/// have to be multicast groups.
pub fn check_server_groups(discovery: SocketAddress, transfer: SocketAddress) -> (r: Result<
    (),
    ConfigError,
>)
    ensures
        r == if discovery.spec_ip().spec_is_ipv6() != transfer.spec_ip().spec_is_ipv6() {
            Err::<(), ConfigError>(ConfigError::GroupFamilies)
        } else if !discovery.spec_ip().spec_is_multicast()
            || !transfer.spec_ip().spec_is_multicast() {
            Err::<(), ConfigError>(ConfigError::NotMulticast)
        } else {
            Ok::<(), ConfigError>(())
        },
{
    if discovery.is_ipv6() != transfer.is_ipv6() {
        return Err(ConfigError::GroupFamilies);
    }
    if !discovery.ip().is_multicast() || !transfer.ip().is_multicast() {
        return Err(ConfigError::NotMulticast);
    }
    Ok(())
}

/// The place of the first address of `ips` that is of the family asked for,
/// or the length of `ips` where there is none.
pub open spec fn first_of_family(ips: Seq<IpAddress>, ipv6: bool) -> int
    decreases ips.len(),
{
    if ips.len() == 0 {
        0
    } else if ips[0].spec_is_ipv6() == ipv6 {
        0
    } else {
        1 + first_of_family(ips.drop_first(), ipv6)
    }
}

/// `first_of_family` is the place of an address of the family, with none of
/// the family in front of it, or else the length of the sequence.
pub proof fn lemma_first_of_family(ips: Seq<IpAddress>, ipv6: bool)
    ensures
        0 <= first_of_family(ips, ipv6) <= ips.len(),
        first_of_family(ips, ipv6) < ips.len() ==> ips[first_of_family(ips, ipv6)].spec_is_ipv6()
            == ipv6,
        forall|k: int| 0 <= k < first_of_family(ips, ipv6) ==> ips[k].spec_is_ipv6() != ipv6,
    decreases ips.len(),
{
    if ips.len() > 0 && ips[0].spec_is_ipv6() != ipv6 {
        let rest = ips.drop_first();
        lemma_first_of_family(rest, ipv6);
        assert forall|k: int| 0 <= k < first_of_family(ips, ipv6) implies ips[k].spec_is_ipv6()
            != ipv6 by {
            if k > 0 {
                assert(rest[k - 1] == ips[k]);
            }
        }
    }
}

/// The first address of `ips` that is of the family asked for.
pub fn find_family(ips: &Vec<IpAddress>, ipv6: bool) -> (r: Option<IpAddress>)
    ensures
        r == if first_of_family(ips@, ipv6) < ips@.len() {
            Some(ips@[first_of_family(ips@, ipv6)])
        } else {
            None
        },
{
    let mut i: usize = 0;
    proof {
        lemma_first_of_family(ips@, ipv6);
    }
    while i < ips.len()
        invariant
            i <= ips@.len(),
            forall|k: int| 0 <= k < i ==> ips@[k].spec_is_ipv6() != ipv6,
            0 <= first_of_family(ips@, ipv6) <= ips@.len(),
            first_of_family(ips@, ipv6) < ips@.len() ==> ips@[first_of_family(
                ips@,
                ipv6,
            )].spec_is_ipv6() == ipv6,
            forall|k: int| 0 <= k < first_of_family(ips@, ipv6) ==> ips@[k].spec_is_ipv6() != ipv6,
        decreases ips@.len() - i,
    {
        if ips[i].is_ipv6() == ipv6 {
            return Some(ips[i]);
        }
        i += 1;
    }
    None
}

/// The flags of an interface that the choice of an interface depends on.
#[derive(Clone, Copy, Debug, PartialEq, Eq, Structural)]
pub struct InterfaceFlags {
    pub up: bool,
    pub loopback: bool,
    pub multicast: bool,
}

/// One line of what the system reports of its interfaces: an interface's
/// name, its index if it has one, one of its addresses if the line holds an
/// IP address, and its flags. An interface with several addresses has
/// several lines.
#[derive(Debug)]
pub struct InterfaceEntry {
    pub name: String,
    pub index: Option<u32>,
    pub address: Option<IpAddress>,
    pub flags: InterfaceFlags,
}

/// An interface with all its IP addresses.
#[derive(Debug)]
pub struct NetworkInterface {
    pub name: String,
    pub ips: Vec<IpAddress>,
    pub index: u32,
    pub flags: InterfaceFlags,
}

/// An interface as plain values.
pub struct InterfaceView {
    pub name: Seq<char>,
    pub ips: Seq<IpAddress>,
    pub index: u32,
    pub flags: InterfaceFlags,
}

impl View for NetworkInterface {
    type V = InterfaceView;

    open spec fn view(&self) -> InterfaceView {
        InterfaceView { name: self.name@, ips: self.ips@, index: self.index, flags: self.flags }
    }
}

/// The interfaces of a list as plain values.
pub open spec fn interface_views(interfaces: Seq<NetworkInterface>) -> Seq<InterfaceView> {
    interfaces.map_values(|i: NetworkInterface| i@)
}

/// The interface identifier and the unicast address that a session uses.
#[derive(Clone, Copy, Debug, PartialEq, Eq, Structural)]
pub struct Endpoint {
    pub interface_id: InterfaceId,
    pub unicast: IpAddress,
}

/// What `select_endpoint` returns. Without an interface there is no endpoint.
/// The interface is named by its index for IPv6 groups and by its first IPv4
/// address for IPv4 groups; the unicast address is the one asked for, which
/// has to be of the groups' family, or else the interface's first address of
/// that family.
pub open spec fn endpoint_for(
    group_is_ipv6: bool,
    interface: Option<InterfaceView>,
    asked: Option<IpAddress>,
) -> Result<Endpoint, ConfigError> {
    match interface {
        None => Err(ConfigError::NoInterface),
        Some(i) => {
            if !group_is_ipv6 && first_of_family(i.ips, false) >= i.ips.len() {
                Err(ConfigError::NoIpv4Address)
            } else if asked is Some && asked->0.spec_is_ipv6() != group_is_ipv6 {
                Err(ConfigError::UnicastFamily)
            } else if asked is None && first_of_family(i.ips, group_is_ipv6) >= i.ips.len() {
                Err(ConfigError::NoUnicastAddress)
            } else {
                Ok(
                    Endpoint {
                        interface_id: if group_is_ipv6 {
                            InterfaceId::Index(i.index)
                        } else {
                            match i.ips[first_of_family(i.ips, false)] {
                                IpAddress::V4(bits) => InterfaceId::Address(bits),
                                IpAddress::V6(_) => InterfaceId::Index(i.index),
                            }
                        },
                        unicast: match asked {
                            Some(ip) => ip,
                            None => i.ips[first_of_family(i.ips, group_is_ipv6)],
                        },
                    },
                )
            }
        },
    }
}

/// An interface that was looked for, as plain values.
pub open spec fn found_view(interface: Option<&NetworkInterface>) -> Option<InterfaceView> {
    match interface {
        Some(i) => Some(i@),
        None => None,
    }
}

/// Chooses how the session names its interface and which unicast address it
/// uses, from the family of the groups, the interface that was found, if one
/// was, and the unicast address that was asked for, if one was.
pub fn select_endpoint(
    group_is_ipv6: bool,
    interface: Option<&NetworkInterface>,
    asked: Option<IpAddress>,
) -> (r: Result<Endpoint, ConfigError>)
    ensures
        r == endpoint_for(group_is_ipv6, found_view(interface), asked),
{
    let interface = match interface {
        Some(i) => i,
        None => {
            return Err(ConfigError::NoInterface);
        },
    };
    let interface_id = if group_is_ipv6 {
        InterfaceId::Index(interface.index)
    } else {
        match find_family(&interface.ips, false) {
            Some(IpAddress::V4(bits)) => InterfaceId::Address(bits),
            Some(IpAddress::V6(_)) => {
                proof {
                    lemma_first_of_family(interface.ips@, false);
                }
                InterfaceId::Index(interface.index)
            },
            None => {
                return Err(ConfigError::NoIpv4Address);
            },
        }
    };
    let unicast = match asked {
        Some(ip) => {
            if ip.is_ipv6() != group_is_ipv6 {
                return Err(ConfigError::UnicastFamily);
            }
            ip
        },
        None => match find_family(&interface.ips, group_is_ipv6) {
            Some(ip) => ip,
            None => {
                return Err(ConfigError::NoUnicastAddress);
            },
        },
    };
    Ok(Endpoint { interface_id, unicast })
}

/// Which interface a sending multicast socket is told to use.
#[derive(Clone, Copy, Debug, PartialEq, Eq, Structural)]
pub enum OutgoingInterface {
    /// None: the system's choice stands.
    Default,
    /// The IPv6 interface of this index.
    Index(u32),
    /// The IPv4 interface of this address.
    Address(u32),
}

/// Decides which interface a sending multicast socket is told to use. An
/// IPv6 socket takes an index and an IPv4 socket an address; index 0 and the
/// unspecified address 0.0.0.0 leave the choice to the system.
pub fn outgoing_interface(bind_is_ipv6: bool, interface: InterfaceId) -> (r: Result<
    OutgoingInterface,
    ConfigError,
>)
    ensures
        r == match interface {
            InterfaceId::Address(a) => if bind_is_ipv6 {
                Err::<OutgoingInterface, ConfigError>(ConfigError::ExpectedIndex)
            } else if a == 0 {
                Ok::<OutgoingInterface, ConfigError>(OutgoingInterface::Default)
            } else {
                Ok::<OutgoingInterface, ConfigError>(OutgoingInterface::Address(a))
            },
            InterfaceId::Index(i) => if !bind_is_ipv6 {
                Err::<OutgoingInterface, ConfigError>(ConfigError::ExpectedAddress)
            } else if i == 0 {
                Ok::<OutgoingInterface, ConfigError>(OutgoingInterface::Default)
            } else {
                Ok::<OutgoingInterface, ConfigError>(OutgoingInterface::Index(i))
            },
        },
{
    match interface {
        InterfaceId::Address(a) => {
            if bind_is_ipv6 {
                Err(ConfigError::ExpectedIndex)
            } else if a == 0 {
                Ok(OutgoingInterface::Default)
            } else {
                Ok(OutgoingInterface::Address(a))
            }
        },
        InterfaceId::Index(i) => {
            if !bind_is_ipv6 {
                Err(ConfigError::ExpectedAddress)
            } else if i == 0 {
                Ok(OutgoingInterface::Default)
            } else {
                Ok(OutgoingInterface::Index(i))
            }
        },
    }
}

/// The group that a receiving multicast socket joins, and on which interface.
#[derive(Clone, Copy, Debug, PartialEq, Eq, Structural)]
pub enum Membership {
    V4 { group: u32, interface: u32 },
    V6 { group: u128, interface: u32 },
}

/// Decides which group a receiving multicast socket joins and on which
/// interface: an IPv4 group is joined on an interface address, an IPv6 group
/// on an interface index.
pub fn membership(group: IpAddress, interface: InterfaceId) -> (r: Result<Membership, ConfigError>)
    ensures
        r == match (group, interface) {
            (IpAddress::V4(g), InterfaceId::Address(a)) => Ok::<Membership, ConfigError>(
                Membership::V4 { group: g, interface: a },
            ),
            (IpAddress::V4(_), InterfaceId::Index(_)) => Err::<Membership, ConfigError>(
                ConfigError::ExpectedAddress,
            ),
            (IpAddress::V6(g), InterfaceId::Index(i)) => Ok::<Membership, ConfigError>(
                Membership::V6 { group: g, interface: i },
            ),
            (IpAddress::V6(_), InterfaceId::Address(_)) => Err::<Membership, ConfigError>(
                ConfigError::ExpectedIndex,
            ),
        },
{
    match group {
        IpAddress::V4(g) => match interface {
            InterfaceId::Address(a) => Ok(Membership::V4 { group: g, interface: a }),
            InterfaceId::Index(_) => Err(ConfigError::ExpectedAddress),
        },
        IpAddress::V6(g) => match interface {
            InterfaceId::Index(i) => Ok(Membership::V6 { group: g, interface: i }),
            InterfaceId::Address(_) => Err(ConfigError::ExpectedIndex),
        },
    }
}

/// The addresses on the lines that bear the name `name`, in the order of the
/// lines.
pub open spec fn addresses_of(entries: Seq<InterfaceEntry>, name: Seq<char>) -> Seq<IpAddress>
    decreases entries.len(),
{
    if entries.len() == 0 {
        Seq::empty()
    } else if entries.last().name@ == name && entries.last().address is Some {
        addresses_of(entries.drop_last(), name).push(entries.last().address->0)
    } else {
        addresses_of(entries.drop_last(), name)
    }
}

/// Line `i` has an index, and no line before it has the same.
pub open spec fn leads(entries: Seq<InterfaceEntry>, i: int) -> bool {
    &&& entries[i].index is Some
    &&& forall|j: int| 0 <= j < i ==> (#[trigger] entries[j]).index != entries[i].index
}

/// The interfaces that the first `n` lines give: one for each index, in the
/// order in which the indices first occur, with the name and the flags of
/// the line on which the index first occurs, and with the addresses of all
/// the lines that bear that name.
pub open spec fn interfaces_of(entries: Seq<InterfaceEntry>, n: int) -> Seq<InterfaceView>
    decreases n,
{
    if n <= 0 {
        Seq::empty()
    } else if leads(entries, n - 1) {
        interfaces_of(entries, n - 1).push(
            InterfaceView {
                name: entries[n - 1].name@,
                ips: addresses_of(entries, entries[n - 1].name@),
                index: entries[n - 1].index->0,
                flags: entries[n - 1].flags,
            },
        )
    } else {
        interfaces_of(entries, n - 1)
    }
}

/// The addresses on the lines that bear the name `name`.
fn collect_addresses(entries: &Vec<InterfaceEntry>, name: &String) -> (ips: Vec<IpAddress>)
    ensures
        ips@ == addresses_of(entries@, name@),
{
    let mut ips: Vec<IpAddress> = Vec::new();
    let mut j: usize = 0;
    assert(entries@.take(0) =~= Seq::<InterfaceEntry>::empty());
    while j < entries.len()
        invariant
            j <= entries@.len(),
            ips@ == addresses_of(entries@.take(j as int), name@),
        decreases entries@.len() - j,
    {
        proof {
            assert(entries@.take(j + 1).drop_last() =~= entries@.take(j as int));
            assert(entries@.take(j + 1).last() == entries@[j as int]);
        }
        if entries[j].name == *name {
            match entries[j].address {
                Some(ip) => {
                    ips.push(ip);
                },
                None => {},
            }
        }
        j += 1;
    }
    assert(entries@.take(j as int) =~= entries@);
    ips
}

/// One of the interfaces has the index `x`.
pub open spec fn listed(out: Seq<NetworkInterface>, x: u32) -> bool {
    exists|k: int| 0 <= k < out.len() && (#[trigger] out[k]).index == x
}

/// One of the first `n` lines has the index `x`.
pub open spec fn reported(entries: Seq<InterfaceEntry>, n: int, x: u32) -> bool {
    exists|j: int| 0 <= j < n && (#[trigger] entries[j]).index == Some(x)
}

/// The interfaces listed are those of the indices that the first `n` lines
/// report.
pub open spec fn lists_reported(
    out: Seq<NetworkInterface>,
    entries: Seq<InterfaceEntry>,
    n: int,
) -> bool {
    forall|x: u32|
        #![trigger listed(out, x)]
        #![trigger reported(entries, n, x)]
        listed(out, x) <==> reported(entries, n, x)
}

/// Tells whether one of the interfaces has the index `index`.
fn has_index(out: &Vec<NetworkInterface>, index: u32) -> (seen: bool)
    ensures
        seen == listed(out@, index),
{
    let mut k: usize = 0;
    while k < out.len()
        invariant
            k <= out@.len(),
            forall|m: int| 0 <= m < k ==> (#[trigger] out@[m]).index != index,
        decreases out@.len() - k,
    {
        if out[k].index == index {
            return true;
        }
        k += 1;
    }
    false
}

/// A line without an index, or with an index that is listed, adds nothing.
proof fn lemma_line_skipped(out: Seq<NetworkInterface>, entries: Seq<InterfaceEntry>, i: int)
    requires
        0 <= i < entries.len(),
        lists_reported(out, entries, i),
        entries[i].index is None || listed(out, entries[i].index->0),
    ensures
        lists_reported(out, entries, i + 1),
        !leads(entries, i),
{
    assert forall|x: u32|
        #![trigger listed(out, x)]
        #![trigger reported(entries, i + 1, x)]
        listed(out, x) <==> reported(entries, i + 1, x) by {
        if reported(entries, i + 1, x) {
            let j = choose|j: int| 0 <= j < i + 1 && (#[trigger] entries[j]).index == Some(x);
            if j < i {
                assert(reported(entries, i, x));
            }
        }
        if listed(out, x) {
            assert(reported(entries, i, x));
            let j = choose|j: int| 0 <= j < i && (#[trigger] entries[j]).index == Some(x);
            assert(entries[j].index == Some(x));
        }
    }
    if entries[i].index is Some {
        let x = entries[i].index->0;
        assert(reported(entries, i, x));
        let j = choose|j: int| 0 <= j < i && (#[trigger] entries[j]).index == Some(x);
        assert(entries[j].index == entries[i].index);
    }
}

/// A line with an index that is not listed yet adds its interface.
proof fn lemma_line_added(
    out: Seq<NetworkInterface>,
    added: NetworkInterface,
    entries: Seq<InterfaceEntry>,
    i: int,
)
    requires
        0 <= i < entries.len(),
        lists_reported(out, entries, i),
        entries[i].index == Some(added.index),
        !listed(out, added.index),
    ensures
        lists_reported(out.push(added), entries, i + 1),
        leads(entries, i),
{
    let grown = out.push(added);
    assert forall|x: u32|
        #![trigger listed(grown, x)]
        #![trigger reported(entries, i + 1, x)]
        listed(grown, x) <==> reported(entries, i + 1, x) by {
        if reported(entries, i + 1, x) {
            let j = choose|j: int| 0 <= j < i + 1 && (#[trigger] entries[j]).index == Some(x);
            if j < i {
                assert(reported(entries, i, x));
                assert(listed(out, x));
                let k = choose|k: int| 0 <= k < out.len() && (#[trigger] out[k]).index == x;
                assert(grown[k].index == x);
            } else {
                assert(grown[out.len() as int].index == x);
            }
        }
        if listed(grown, x) {
            let k = choose|k: int| 0 <= k < grown.len() && (#[trigger] grown[k]).index == x;
            if k < out.len() {
                assert(out[k].index == x);
                assert(listed(out, x));
                assert(reported(entries, i, x));
                let j = choose|j: int| 0 <= j < i && (#[trigger] entries[j]).index == Some(x);
                assert(entries[j].index == Some(x));
            } else {
                assert(entries[i].index == Some(x));
            }
        }
    }
    assert forall|j: int| 0 <= j < i implies (#[trigger] entries[j]).index != entries[i].index by {
        if entries[j].index == entries[i].index {
            assert(reported(entries, i, added.index));
        }
    }
}

/// Makes interfaces of the lines that the system reports: one interface for
/// each index, with the addresses of all lines of its name.
pub fn get_interfaces(entries: &Vec<InterfaceEntry>) -> (out: Vec<NetworkInterface>)
    ensures
        interface_views(out@) == interfaces_of(entries@, entries@.len() as int),
{
    let mut out: Vec<NetworkInterface> = Vec::new();
    let mut i: usize = 0;
    assert(interface_views(out@) =~= interfaces_of(entries@, 0));
    while i < entries.len()
        invariant
            i <= entries@.len(),
            interface_views(out@) == interfaces_of(entries@, i as int),
            lists_reported(out@, entries@, i as int),
        decreases entries@.len() - i,
    {
        let ghost before = out@;
        let fresh = match entries[i].index {
            None => None,
            Some(index) => if has_index(&out, index) {
                None
            } else {
                Some(index)
            },
        };
        match fresh {
            None => {
                proof {
                    lemma_line_skipped(before, entries@, i as int);
                }
            },
            Some(index) => {
                let ips = collect_addresses(entries, &entries[i].name);
                let added = NetworkInterface {
                    name: entries[i].name.clone(),
                    ips,
                    index,
                    flags: entries[i].flags,
                };
                proof {
                    lemma_line_added(before, added, entries@, i as int);
                }
                out.push(added);
                assert(interface_views(out@) =~= interface_views(before).push(added@));
            },
        }
        i += 1;
    }
    out
}

/// The interface is the one asked for: the one of the name given, or, where
/// no name is given, one that is up, can multicast and is no loopback.
pub open spec fn wanted(interface: InterfaceView, name: Option<Seq<char>>) -> bool {
    match name {
        Some(n) => interface.name == n,
        None => interface.flags.up && !interface.flags.loopback && interface.flags.multicast,
    }
}

/// The place of the first interface that is wanted, or the length of the
/// list where none is.
pub open spec fn first_wanted(interfaces: Seq<InterfaceView>, name: Option<Seq<char>>) -> int
    decreases interfaces.len(),
{
    if interfaces.len() == 0 {
        0
    } else if wanted(interfaces[0], name) {
        0
    } else {
        1 + first_wanted(interfaces.drop_first(), name)
    }
}

/// `first_wanted` is the place of an interface that is wanted, with none that
/// is wanted in front of it, or else the length of the list.
pub proof fn lemma_first_wanted(interfaces: Seq<InterfaceView>, name: Option<Seq<char>>)
    ensures
        0 <= first_wanted(interfaces, name) <= interfaces.len(),
        first_wanted(interfaces, name) < interfaces.len() ==> wanted(
            interfaces[first_wanted(interfaces, name)],
            name,
        ),
        forall|k: int| 0 <= k < first_wanted(interfaces, name) ==> !wanted(interfaces[k], name),
    decreases interfaces.len(),
{
    if interfaces.len() > 0 && !wanted(interfaces[0], name) {
        let rest = interfaces.drop_first();
        lemma_first_wanted(rest, name);
        assert forall|k: int| 0 <= k < first_wanted(interfaces, name) implies !wanted(
            interfaces[k],
            name,
        ) by {
            if k > 0 {
                assert(rest[k - 1] == interfaces[k]);
            }
        }
    }
}

/// The name asked for, as plain values.
pub open spec fn name_view(name: Option<&String>) -> Option<Seq<char>> {
    match name {
        Some(n) => Some(n@),
        None => None,
    }
}

/// Picks the interface of a session: the first one of the name given, or,
/// where no name is given, the first one that is up, can multicast and is no
/// loopback. `None` where the list holds no such interface.
pub fn get_interface(interfaces: &Vec<NetworkInterface>, name: Option<&String>) -> (r: Option<
    NetworkInterface,
>)
    ensures
        match r {
            Some(i) => first_wanted(interface_views(interfaces@), name_view(name))
                < interfaces@.len() && i@ == interfaces@[first_wanted(
                interface_views(interfaces@),
                name_view(name),
            )]@,
            None => first_wanted(interface_views(interfaces@), name_view(name))
                >= interfaces@.len(),
        },
{
    let ghost views = interface_views(interfaces@);
    let ghost want = name_view(name);
    proof {
        lemma_first_wanted(views, want);
    }
    let mut k: usize = 0;
    while k < interfaces.len()
        invariant
            k <= interfaces@.len(),
            views == interface_views(interfaces@),
            want == name_view(name),
            forall|m: int| 0 <= m < k ==> !wanted(views[m], want),
            0 <= first_wanted(views, want) <= views.len(),
            first_wanted(views, want) < views.len() ==> wanted(
                views[first_wanted(views, want)],
                want,
            ),
            forall|m: int| 0 <= m < first_wanted(views, want) ==> !wanted(views[m], want),
        decreases interfaces@.len() - k,
    {
        let candidate = &interfaces[k];
        let found = match name {
            Some(n) => candidate.name == *n,
            None => candidate.flags.up && !candidate.flags.loopback && candidate.flags.multicast,
        };
        assert(found == wanted(views[k as int], want));
        if found {
            let ips = candidate.ips.clone();
            assert(ips@ =~= candidate.ips@);
            return Some(
                NetworkInterface {
                    name: candidate.name.clone(),
                    ips,
                    index: candidate.index,
                    flags: candidate.flags,
                },
            );
        }
        k += 1;
    }
    None
}

} // verus!

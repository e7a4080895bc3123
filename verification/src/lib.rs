//! Data plane of a one-to-many file distribution over IP multicast.
//!
//! A server splits an image into hashed chunks, multicasts chunk fragments at
//! a paced rate and resends whatever the clients ask for again; a client
//! reassembles fragments into chunks, checks each chunk against its hash and
//! hands it to the disk at its offset in the image.

use crate::net::SocketAddress;
use vstd::prelude::*;

pub mod chunk;
pub mod digest;
pub mod disk;
pub mod dispatch;
pub mod idset;
pub mod image;
pub mod net;
pub mod receiver;
pub mod wire;

verus! {

/// A collection with a fixed upper bound on the number of its items.
pub trait Capacity {
    /// The number of items that the collection can hold.
    const CAPACITY: usize;
}

/// `heapless::Vec`, a vector with room for `N` items and no allocation.
#[verifier::external_type_specification]
#[verifier::external_body]
#[verifier::reject_recursive_types(T)]
pub struct ExHeaplessVec<T, const N: usize>(heapless::Vec<T, N>);

/// The chunks that a client asks the server to send again.
pub type ChunkRequest = heapless::Vec<u32, 40>;

impl<T, const N: usize> Capacity for heapless::Vec<T, N> {
    const CAPACITY: usize = N;
}

/// One fragment of a chunk, as it travels in one datagram.
#[derive(Clone, Debug)]
pub struct ChunkData<'a> {
    /// Index of the chunk in the image's chunk table.
    pub chunk: u32,
    /// Where the fragment starts inside the chunk.
    pub offset: u32,
    /// The fragment's bytes.
    pub data: &'a [u8],
}

/// Where a chunk lies in the image, how long it is, and the hash of its bytes.
#[derive(Clone, Copy, Debug, PartialEq, Eq, Structural)]
pub struct ChunkMetadata {
    /// Where the chunk starts in the image.
    pub offset: u64,
    /// The number of bytes of the chunk.
    pub size: u32,
    /// The XXH3 hash of the chunk's bytes.
    pub hash: u64,
}

/// The chunk table of an image.
#[derive(Clone, Debug)]
pub struct ImageMetadata {
    /// The chunks in the order in which they lie in the image.
    pub chunks: Vec<ChunkMetadata>,
}

/// Where a server is to be found: the socket that hands out the chunk table,
/// the socket that takes requests, and the multicast group of the transfer.
#[derive(Clone, Copy, Debug, PartialEq, Eq, Structural)]
pub struct ServerDiscovery {
    /// Where the chunk table is handed out, over a stream.
    pub metadata_socket: SocketAddress,
    /// Where requests for chunks are taken, as datagrams.
    pub request_socket: SocketAddress,
    /// The multicast group on which the fragments are sent.
    pub transfer_socket: SocketAddress,
}

impl ServerDiscovery {
    /// The three sockets are all IPv6, or all IPv4, as `ipv6` says.
    pub open spec fn of_family(self, ipv6: bool) -> bool {
        &&& self.metadata_socket.spec_ip().spec_is_ipv6() == ipv6
        &&& self.request_socket.spec_ip().spec_is_ipv6() == ipv6
        &&& self.transfer_socket.spec_ip().spec_is_ipv6() == ipv6
    }

    /// The record with each link-local socket scoped to the interface
    /// `index`.
    pub open spec fn scoped(self, index: u32) -> ServerDiscovery {
        ServerDiscovery {
            metadata_socket: self.metadata_socket.spec_scoped(index),
            request_socket: self.request_socket.spec_scoped(index),
            transfer_socket: self.transfer_socket.spec_scoped(index),
        }
    }

    /// Decides whether a client follows a discovery record that came in, and
    /// makes it usable: a record is followed where its three sockets are of
    /// the client's family, and each link-local socket in it is scoped to the
    /// client's interface.
    pub fn localize(self, local_is_ipv6: bool, interface_index: u32) -> (r: Option<ServerDiscovery>)
        ensures
            r == if self.of_family(local_is_ipv6) {
                Some(self.scoped(interface_index))
            } else {
                None
            },
    {
        if self.metadata_socket.is_ipv6() == local_is_ipv6 && self.request_socket.is_ipv6()
            == local_is_ipv6 && self.transfer_socket.is_ipv6() == local_is_ipv6 {
            Some(
                ServerDiscovery {
                    metadata_socket: self.metadata_socket.scoped(interface_index),
                    request_socket: self.request_socket.scoped(interface_index),
                    transfer_socket: self.transfer_socket.scoped(interface_index),
                },
            )
        } else {
            None
        }
    }
}

} // verus!

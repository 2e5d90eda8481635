//! The compact peer-list format returned by HTTP trackers: each peer is six
//! raw bytes, a 4-byte big-endian IPv4 address followed by a 2-byte
//! big-endian port.

use vstd::prelude::*;

use crate::bencode::ValidationError;

verus! {

/// One peer: an IPv4 address and a port.
#[derive(Debug, Clone, Copy, PartialEq, Eq, PartialOrd, Ord, Hash)]
pub struct Peer {
    pub ip: [u8; 4],
    pub port: u16,
}

/// The peer encoded at record `i` of the compact blob `s`.
pub open spec fn peer_at(s: Seq<u8>, i: int) -> Peer {
    Peer {
        ip: [s[6 * i], s[6 * i + 1], s[6 * i + 2], s[6 * i + 3]],
        port: (s[6 * i + 4] * 256 + s[6 * i + 5]) as u16,
    }
}

impl Peer {
    /// Decodes a compact peer list, preserving input order; fails with the
    /// offending length when it is not a multiple of six.
    pub fn unmarshal(peers_bin: &[u8]) -> (r: Result<Vec<Peer>, ValidationError>)
        ensures
            peers_bin@.len() % 6 == 0 ==> (r matches Ok(v) && v@.len() == peers_bin@.len() / 6
                && (forall|i: int|
                0 <= i < v@.len() ==> #[trigger] v@[i] == peer_at(peers_bin@, i))),
            peers_bin@.len() % 6 != 0 ==> r == Err::<Vec<Peer>, ValidationError>(
                ValidationError::MalformedPeerListLength(peers_bin@.len() as u64),
            ),
    {
        if peers_bin.len() % 6 != 0 {
            return Err(ValidationError::MalformedPeerListLength(peers_bin.len() as u64));
        }
        let num_peers = peers_bin.len() / 6;
        let mut peers: Vec<Peer> = Vec::new();
        let mut i: usize = 0;
        while i < num_peers
            invariant
                0 <= i <= num_peers,
                num_peers == peers_bin@.len() / 6,
                peers_bin@.len() % 6 == 0,
                peers_bin@.len() <= usize::MAX,
                peers@.len() == i,
                forall|j: int| 0 <= j < i ==> #[trigger] peers@[j] == peer_at(peers_bin@, j),
            decreases num_peers - i,
        {
            proof {
                assert(6 * (num_peers as int) == peers_bin@.len());
                assert(6 * (i as int) + 6 <= 6 * (num_peers as int));
            }
            let offset = 6 * i;
            let ip = [peers_bin[offset], peers_bin[offset + 1], peers_bin[offset + 2], peers_bin[offset
                + 3]];
            let port = (peers_bin[offset + 4] as u16) * 256 + (peers_bin[offset + 5] as u16);
            let p = Peer { ip, port };
            proof {
                assert(p.ip@ =~= peer_at(peers_bin@, i as int).ip@);
                assert(p.ip == peer_at(peers_bin@, i as int).ip);
            }
            peers.push(p);
            i = i + 1;
        }
        Ok(peers)
    }
}

} // verus!

//! Observation records: what one qualifying route element contributes to the summary.

use vstd::prelude::*;
use crate::order::Key;

verus! {

/// A vantage point: a peer AS together with the address of the peering session.
pub type Feed = (u32, Seq<char>);

/// One observation: a peer, seen from one of its sessions, announced `prefix` as originated by
/// `origin`.
#[derive(Debug, PartialEq, Eq)]
pub struct Observation {
    pub origin: u32,
    pub peer_asn: u32,
    pub peer_ip: String,
    pub prefix: String,
}

/// The mathematical content of an [`Observation`].
pub struct ObservationView {
    pub origin: u32,
    pub peer_asn: u32,
    pub peer_ip: Seq<char>,
    pub prefix: Seq<char>,
}

impl ObservationView {
    /// The aggregation key that the observation counts under.
    pub open spec fn key(self) -> Key {
        (self.prefix, self.origin)
    }

    /// The vantage point that made the observation.
    pub open spec fn feed(self) -> Feed {
        (self.peer_asn, self.peer_ip)
    }
}

impl View for Observation {
    type V = ObservationView;

    open spec fn view(&self) -> ObservationView {
        ObservationView {
            origin: self.origin,
            peer_asn: self.peer_asn,
            peer_ip: self.peer_ip@,
            prefix: self.prefix@,
        }
    }
}

impl Observation {
    /// Builds an observation from its four parts.
    pub fn new(origin: u32, peer_asn: u32, peer_ip: String, prefix: String) -> (obs: Observation)
        ensures
            obs@ == (ObservationView { origin, peer_asn, peer_ip: peer_ip@, prefix: prefix@ }),
    {
        Observation { origin, peer_asn, peer_ip, prefix }
    }
}

} // verus!

//! The last fetched topology of one interface, kept for offline queries.
//! Every successful fetch replaces it whole; nothing is merged.

use crate::model::Cidr;
use crate::peer::Peer;
use vstd::prelude::*;

verus! {

pub struct Snapshot {
    interface: String,
    peers: Vec<Peer>,
    cidrs: Vec<Cidr>,
}

impl Snapshot {
    pub closed spec fn interface_name(&self) -> Seq<char> {
        self.interface@
    }

    /// The peers, in the order they were fetched.
    pub closed spec fn peer_list(&self) -> Seq<Peer> {
        self.peers@
    }

    pub closed spec fn cidr_list(&self) -> Seq<Cidr> {
        self.cidrs@
    }

    /// An empty snapshot for `interface`.
    pub fn new(interface: String) -> (r: Snapshot)
        ensures
            r.interface_name() == interface@,
            r.peer_list().len() == 0,
            r.cidr_list().len() == 0,
    {
        Snapshot { interface, peers: Vec::new(), cidrs: Vec::new() }
    }

    /// A snapshot holding what was persisted for `interface`.
    pub fn from_parts(interface: String, peers: Vec<Peer>, cidrs: Vec<Cidr>) -> (r: Snapshot)
        ensures
            r.interface_name() == interface@,
            r.peer_list() == peers@,
            r.cidr_list() == cidrs@,
    {
        Snapshot { interface, peers, cidrs }
    }

    /// Replaces the blocks wholesale.
    pub fn set_cidrs(&mut self, cidrs: Vec<Cidr>)
        ensures
            final(self).cidr_list() == cidrs@,
            final(self).peer_list() == old(self).peer_list(),
            final(self).interface_name() == old(self).interface_name(),
    {
        self.cidrs = cidrs;
    }

    /// Replaces the peers wholesale.
    pub fn add_peers(&mut self, peers: Vec<Peer>)
        ensures
            final(self).peer_list() == peers@,
            final(self).cidr_list() == old(self).cidr_list(),
            final(self).interface_name() == old(self).interface_name(),
    {
        self.peers = peers;
    }

    /// Records the outcome of a successful fetch: the snapshot becomes exactly
    /// what was fetched, whatever it held before.
    pub fn record_fetch(&mut self, peers: Vec<Peer>, cidrs: Vec<Cidr>)
        ensures
            final(self).peer_list() == peers@,
            final(self).cidr_list() == cidrs@,
            final(self).interface_name() == old(self).interface_name(),
    {
        self.set_cidrs(cidrs);
        self.add_peers(peers);
    }

    pub fn interface(&self) -> (r: &String)
        ensures
            r@ == self.interface_name(),
    {
        &self.interface
    }

    pub fn peers(&self) -> (r: &Vec<Peer>)
        ensures
            r@ == self.peer_list(),
    {
        &self.peers
    }

    pub fn cidrs(&self) -> (r: &Vec<Cidr>)
        ensures
            r@ == self.cidr_list(),
    {
        &self.cidrs
    }
}

} // verus!

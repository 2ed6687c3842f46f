//! Peers as the authority describes them and as the live interface holds them.

use vstd::prelude::*;

verus! {

/// An IPv4 socket address.
#[derive(Clone, Copy, Debug, PartialEq, Eq, Structural)]
pub struct Endpoint {
    pub ip: u32,
    pub port: u16,
}

/// A mesh participant, as the authority describes it.
#[derive(Clone, Debug)]
pub struct Peer {
    pub id: i64,
    pub name: String,
    /// Base64 text of the peer's public key: its identity.
    pub public_key: String,
    pub ip: u32,
    pub cidr_id: i64,
    pub endpoint: Option<Endpoint>,
    pub is_disabled: bool,
    pub persistent_keepalive: Option<u16>,
}

/// The configuration of one peer on the live interface.
#[derive(Clone, Debug)]
pub struct PeerConfig {
    pub public_key: String,
    pub allowed_ip: u32,
    pub endpoint: Option<Endpoint>,
    pub persistent_keepalive: Option<u16>,
}

/// The fields of a configured peer that change; `None` for a field that stays.
#[derive(Clone, Debug)]
pub struct PeerChange {
    pub public_key: String,
    pub allowed_ip: Option<u32>,
    pub endpoint: Option<Option<Endpoint>>,
    pub persistent_keepalive: Option<Option<u16>>,
}

/// One step of a mutation plan for the live interface.
#[derive(Clone, Debug)]
pub enum Mutation {
    /// Configure a new peer in full.
    Add(PeerConfig),
    /// Change only the listed fields of a configured peer.
    Modify(PeerChange),
    /// Drop the configured peer with this public key.
    Remove(String),
}

/// The public key a mutation is about.
pub open spec fn mutation_key(m: Mutation) -> Seq<char> {
    match m {
        Mutation::Add(c) => c.public_key@,
        Mutation::Modify(c) => c.public_key@,
        Mutation::Remove(k) => k@,
    }
}

/// The full interface configuration that a desired peer asks for.
pub open spec fn config_of(p: Peer) -> PeerConfig {
    PeerConfig {
        public_key: p.public_key,
        allowed_ip: p.ip,
        endpoint: p.endpoint,
        persistent_keepalive: p.persistent_keepalive,
    }
}

/// Field-level difference between a desired peer and its configuration.
pub open spec fn diff_of(p: Peer, c: PeerConfig) -> PeerChange {
    PeerChange {
        public_key: p.public_key,
        allowed_ip: if p.ip != c.allowed_ip {
            Some(p.ip)
        } else {
            None
        },
        endpoint: if p.endpoint != c.endpoint {
            Some(p.endpoint)
        } else {
            None
        },
        persistent_keepalive: if p.persistent_keepalive != c.persistent_keepalive {
            Some(p.persistent_keepalive)
        } else {
            None
        },
    }
}

pub open spec fn change_is_empty(c: PeerChange) -> bool {
    c.allowed_ip.is_none() && c.endpoint.is_none() && c.persistent_keepalive.is_none()
}

/// The desired peer and the configured one agree on every field.
pub open spec fn same_config(p: Peer, c: PeerConfig) -> bool {
    &&& p.public_key@ == c.public_key@
    &&& p.ip == c.allowed_ip
    &&& p.endpoint == c.endpoint
    &&& p.persistent_keepalive == c.persistent_keepalive
}

impl Peer {
    pub fn config(&self) -> (r: PeerConfig)
        ensures
            r == config_of(*self),
    {
        PeerConfig {
            public_key: self.public_key.clone(),
            allowed_ip: self.ip,
            endpoint: self.endpoint,
            persistent_keepalive: self.persistent_keepalive,
        }
    }

    /// The fields of `current` that differ from this peer, with this peer's
    /// values; `None` where every field agrees.
    pub fn diff(&self, current: &PeerConfig) -> (r: Option<PeerChange>)
        ensures
            match r {
                Some(c) => c == diff_of(*self, *current) && !change_is_empty(c),
                None => change_is_empty(diff_of(*self, *current)),
            },
    {
        let ip_changed = self.ip != current.allowed_ip;
        let endpoint_changed = match (self.endpoint, current.endpoint) {
            (Some(a), Some(b)) => a != b,
            (None, None) => false,
            _ => true,
        };
        let keepalive_changed = match (self.persistent_keepalive, current.persistent_keepalive) {
            (Some(a), Some(b)) => a != b,
            (None, None) => false,
            _ => true,
        };
        if !ip_changed && !endpoint_changed && !keepalive_changed {
            return None;
        }
        Some(
            PeerChange {
                public_key: self.public_key.clone(),
                allowed_ip: if ip_changed {
                    Some(self.ip)
                } else {
                    None
                },
                endpoint: if endpoint_changed {
                    Some(self.endpoint)
                } else {
                    None
                },
                persistent_keepalive: if keepalive_changed {
                    Some(self.persistent_keepalive)
                } else {
                    None
                },
            },
        )
    }
}

} // verus!

use innernet_client::model::ValidationError;
use innernet_client::peer::{Endpoint, Mutation, Peer, PeerConfig};
use innernet_client::reconcile::plan;

fn peer(id: i64, key: &str, ip: u32) -> Peer {
    Peer {
        id,
        name: format!("peer{}", id),
        public_key: key.to_string(),
        ip,
        cidr_id: 1,
        endpoint: None,
        is_disabled: false,
        persistent_keepalive: None,
    }
}

fn configured(p: &Peer) -> PeerConfig {
    PeerConfig {
        public_key: p.public_key.clone(),
        allowed_ip: p.ip,
        endpoint: p.endpoint,
        persistent_keepalive: p.persistent_keepalive,
    }
}

const OWN: &str = "ownkeyownkeyownkeyownkeyownkeyownkeyownkey=";
const ADDR_2: u32 = 0x0A00_0002;
const ADDR_3: u32 = 0x0A00_0003;
const ADDR_4: u32 = 0x0A00_0004;

#[test]
fn identical_peer_gives_empty_plan() {
    let known = peer(1, "k1k1k1k1k1k1", ADDR_2);
    let actual = vec![configured(&known)];
    let r = plan(&vec![known], &OWN.to_string(), &actual).unwrap();
    assert!(r.is_empty());
}

#[test]
fn disabled_absent_peer_is_not_added() {
    let mut off = peer(2, "k2k2k2k2k2k2", ADDR_3);
    off.is_disabled = true;
    let r = plan(&vec![off], &OWN.to_string(), &vec![]).unwrap();
    assert!(r.is_empty());
}

#[test]
fn absent_peer_is_added_in_full() {
    let mut fresh = peer(3, "k3k3k3k3k3k3", ADDR_4);
    fresh.endpoint = Some(Endpoint { ip: 0xC000_0201, port: 51820 });
    fresh.persistent_keepalive = Some(25);
    let r = plan(&vec![fresh.clone()], &OWN.to_string(), &vec![]).unwrap();
    assert_eq!(r.len(), 1);
    match &r[0] {
        Mutation::Add(c) => {
            assert_eq!(c.public_key, "k3k3k3k3k3k3");
            assert_eq!(c.allowed_ip, ADDR_4);
            assert_eq!(c.endpoint, Some(Endpoint { ip: 0xC000_0201, port: 51820 }));
            assert_eq!(c.persistent_keepalive, Some(25));
        }
        other => panic!("expected an addition, got {:?}", other),
    }
}

#[test]
fn unknown_configured_peer_is_removed() {
    let leftover = peer(4, "k4k4k4k4k4k4", ADDR_2);
    let r = plan(&vec![], &OWN.to_string(), &vec![configured(&leftover)]).unwrap();
    assert_eq!(r.len(), 1);
    match &r[0] {
        Mutation::Remove(k) => assert_eq!(k, "k4k4k4k4k4k4"),
        other => panic!("expected a removal, got {:?}", other),
    }
}

#[test]
fn changed_endpoint_gives_modify_with_endpoint_only() {
    let e1 = Endpoint { ip: 0xC000_0201, port: 51820 };
    let e2 = Endpoint { ip: 0xC000_0202, port: 51820 };
    let mut desired = peer(5, "k5k5k5k5k5k5", ADDR_2);
    desired.endpoint = Some(e1);
    let mut current = configured(&desired);
    current.endpoint = Some(e2);
    let r = plan(&vec![desired], &OWN.to_string(), &vec![current]).unwrap();
    assert_eq!(r.len(), 1);
    match &r[0] {
        Mutation::Modify(c) => {
            assert_eq!(c.public_key, "k5k5k5k5k5k5");
            assert_eq!(c.endpoint, Some(Some(e1)));
            assert_eq!(c.allowed_ip, None);
            assert_eq!(c.persistent_keepalive, None);
        }
        other => panic!("expected a modification, got {:?}", other),
    }
}

#[test]
fn own_key_never_in_plan() {
    let me = peer(9, OWN, ADDR_2);
    let r = plan(&vec![me.clone()], &OWN.to_string(), &vec![]).unwrap();
    assert!(r.is_empty());
    let r = plan(&vec![], &OWN.to_string(), &vec![configured(&me)]).unwrap();
    assert!(r.is_empty());
}

#[test]
fn disabled_configured_peer_is_removed() {
    let mut p = peer(6, "k6k6k6k6k6k6", ADDR_3);
    let current = configured(&p);
    p.is_disabled = true;
    let r = plan(&vec![p], &OWN.to_string(), &vec![current]).unwrap();
    assert_eq!(r.len(), 1);
    match &r[0] {
        Mutation::Remove(k) => assert_eq!(k, "k6k6k6k6k6k6"),
        other => panic!("expected a removal, got {:?}", other),
    }
}

#[test]
fn mixed_plan_has_each_peer_once() {
    let same = peer(1, "aaaaaaaaaaaa", ADDR_2);
    let new = peer(2, "bbbbbbbbbbbb", ADDR_3);
    let mut moved = peer(3, "cccccccccccc", ADDR_4);
    let old_moved = configured(&moved);
    moved.persistent_keepalive = Some(10);
    let gone = peer(4, "dddddddddddd", 0x0A00_0005);
    let desired = vec![same.clone(), new, moved];
    let actual = vec![configured(&same), old_moved, configured(&gone)];
    let r = plan(&desired, &OWN.to_string(), &actual).unwrap();
    assert_eq!(r.len(), 3);
    assert!(matches!(&r[0], Mutation::Add(c) if c.public_key == "bbbbbbbbbbbb"));
    match &r[1] {
        Mutation::Modify(c) => {
            assert_eq!(c.public_key, "cccccccccccc");
            assert_eq!(c.persistent_keepalive, Some(Some(10)));
            assert_eq!(c.allowed_ip, None);
            assert_eq!(c.endpoint, None);
        }
        other => panic!("expected a modification, got {:?}", other),
    }
    assert!(matches!(&r[2], Mutation::Remove(k) if k == "dddddddddddd"));
}

#[test]
fn duplicate_desired_key_is_refused() {
    let a = peer(1, "aaaaaaaaaaaa", ADDR_2);
    let b = peer(2, "aaaaaaaaaaaa", ADDR_3);
    assert_eq!(
        plan(&vec![a, b], &OWN.to_string(), &vec![]).unwrap_err(),
        ValidationError::DuplicateKey
    );
}

#[test]
fn duplicate_configured_key_is_refused() {
    let a = peer(1, "aaaaaaaaaaaa", ADDR_2);
    let actual = vec![configured(&a), configured(&a)];
    assert_eq!(
        plan(&vec![], &OWN.to_string(), &actual).unwrap_err(),
        ValidationError::DuplicateKey
    );
}

#[test]
fn shared_address_is_refused_unless_disabled() {
    let a = peer(1, "aaaaaaaaaaaa", ADDR_2);
    let mut b = peer(2, "bbbbbbbbbbbb", ADDR_2);
    assert_eq!(
        plan(&vec![a.clone(), b.clone()], &OWN.to_string(), &vec![]).unwrap_err(),
        ValidationError::DuplicateAddress
    );
    b.is_disabled = true;
    assert_eq!(plan(&vec![a, b], &OWN.to_string(), &vec![]).unwrap().len(), 1);
}

#[test]
fn diff_lists_only_changed_fields() {
    let mut p = peer(1, "aaaaaaaaaaaa", ADDR_2);
    let current = configured(&p);
    assert!(p.diff(&current).is_none());
    p.ip = ADDR_3;
    let c = p.diff(&current).unwrap();
    assert_eq!(c.allowed_ip, Some(ADDR_3));
    assert_eq!(c.endpoint, None);
    assert_eq!(c.persistent_keepalive, None);
}

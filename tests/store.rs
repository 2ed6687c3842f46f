use innernet_client::model::Cidr;
use innernet_client::peer::Peer;
use innernet_client::store::Snapshot;

fn peer(id: i64) -> Peer {
    Peer {
        id,
        name: format!("p{}", id),
        public_key: format!("key{:09}", id),
        ip: id as u32,
        cidr_id: 1,
        endpoint: None,
        is_disabled: false,
        persistent_keepalive: None,
    }
}

#[test]
fn fetch_replaces_snapshot_whole() {
    let mut s = Snapshot::new("mesh".to_string());
    assert!(s.peers().is_empty());
    s.record_fetch(vec![peer(1), peer(2)], vec![Cidr {
        id: 1,
        name: "root".to_string(),
        addr: 0x0A00_0000,
        prefix_len: 8,
    }]);
    assert_eq!(s.peers().len(), 2);
    assert_eq!(s.cidrs().len(), 1);
    s.record_fetch(vec![peer(3)], vec![]);
    assert_eq!(s.peers().len(), 1);
    assert_eq!(s.peers()[0].id, 3);
    assert!(s.cidrs().is_empty());
    assert_eq!(s.interface(), "mesh");
}

#[test]
fn setters_touch_one_collection() {
    let mut s = Snapshot::from_parts("mesh".to_string(), vec![peer(1)], vec![]);
    s.set_cidrs(vec![]);
    assert_eq!(s.peers().len(), 1);
    s.add_peers(vec![]);
    assert!(s.peers().is_empty());
}

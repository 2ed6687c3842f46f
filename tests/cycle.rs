use innernet_client::cycle::{
    after_cycle, hosts_for, interface_action, key_fingerprint, reconcile_cycle, report_changes,
    ChangeKind, LoopStep,
};
use innernet_client::model::ValidationError;
use innernet_client::peer::{Peer, PeerConfig};

fn peer(id: i64, name: &str, key: &str, ip: u32) -> Peer {
    Peer {
        id,
        name: name.to_string(),
        public_key: key.to_string(),
        ip,
        cidr_id: 1,
        endpoint: None,
        is_disabled: false,
        persistent_keepalive: None,
    }
}

#[test]
fn hosts_skip_disabled_and_self() {
    let own = "ownownownownown".to_string();
    let mut off = peer(2, "off", "bbbbbbbbbbbb", 3);
    off.is_disabled = true;
    let desired = vec![
        peer(1, "alpha", "aaaaaaaaaaaa", 2),
        off,
        peer(3, "me", "ownownownownown", 4),
        peer(4, "beta", "cccccccccccc", 5),
    ];
    let hosts = hosts_for(&desired, &own, &"mesh".to_string());
    assert_eq!(hosts.len(), 2);
    assert_eq!(hosts[0].hostname, "alpha.mesh.wg");
    assert_eq!(hosts[0].ip, 2);
    assert_eq!(hosts[1].hostname, "beta.mesh.wg");
    assert_eq!(hosts[1].ip, 5);
}

#[test]
fn converged_interface_is_not_applied() {
    let p = peer(1, "alpha", "aaaaaaaaaaaa", 2);
    let actual = vec![PeerConfig {
        public_key: p.public_key.clone(),
        allowed_ip: 2,
        endpoint: None,
        persistent_keepalive: None,
    }];
    let c = reconcile_cycle(&vec![p.clone()], &"own".to_string(), &actual, &"mesh".to_string())
        .unwrap();
    assert!(!c.apply);
    assert!(c.mutations.is_empty());
    let c = reconcile_cycle(&vec![p], &"own".to_string(), &vec![], &"mesh".to_string()).unwrap();
    assert!(c.apply);
    assert_eq!(c.mutations.len(), 1);
    assert_eq!(c.hosts.len(), 1);
}

#[test]
fn cycle_refuses_duplicate_keys() {
    let a = peer(1, "a", "aaaaaaaaaaaa", 2);
    let b = peer(2, "b", "aaaaaaaaaaaa", 3);
    let r = reconcile_cycle(&vec![a, b], &"own".to_string(), &vec![], &"mesh".to_string());
    assert_eq!(r.err(), Some(ValidationError::DuplicateKey));
}

#[test]
fn interface_action_cases() {
    assert_eq!(interface_action(true, false), Some(false));
    assert_eq!(interface_action(true, true), Some(false));
    assert_eq!(interface_action(false, true), Some(true));
    assert_eq!(interface_action(false, false), None);
}

#[test]
fn fingerprint_is_first_ten_characters() {
    let key = "ABCDEFGHIJKLMNOPQRSTUVWXYZabcdefghijklmnop=".to_string();
    assert_eq!(key_fingerprint(&key), "ABCDEFGHIJ");
    assert_eq!(key_fingerprint(&"short".to_string()), "short");
}

#[test]
fn reports_use_names_and_fingerprints() {
    let added = peer(1, "alpha", "AAAAAAAAAAAAAAAAAAAAAAAA=", 2);
    let gone = PeerConfig {
        public_key: "ZZZZZZZZZZZZZZZZZZZZZZZZ=".to_string(),
        allowed_ip: 9,
        endpoint: None,
        persistent_keepalive: None,
    };
    let c = reconcile_cycle(&vec![added.clone()], &"own".to_string(), &vec![gone], &"mesh".to_string())
        .unwrap();
    let r = report_changes(&c.mutations, &vec![added]);
    assert_eq!(r.len(), 2);
    assert_eq!(r[0].kind, ChangeKind::Added);
    assert_eq!(r[0].name.as_deref(), Some("alpha"));
    assert_eq!(r[0].fingerprint, "AAAAAAAAAA");
    assert_eq!(r[1].kind, ChangeKind::Removed);
    assert_eq!(r[1].name, None);
    assert_eq!(r[1].fingerprint, "ZZZZZZZZZZ");
}

#[test]
fn removed_disabled_peer_is_reported_by_name() {
    let mut off = peer(1, "retired", "RRRRRRRRRRRRRRRRRRRR=", 2);
    let current = PeerConfig {
        public_key: off.public_key.clone(),
        allowed_ip: 2,
        endpoint: None,
        persistent_keepalive: None,
    };
    off.is_disabled = true;
    let desired = vec![off];
    let c = reconcile_cycle(&desired, &"own".to_string(), &vec![current], &"mesh".to_string())
        .unwrap();
    let r = report_changes(&c.mutations, &desired);
    assert_eq!(r.len(), 1);
    assert_eq!(r[0].kind, ChangeKind::Removed);
    assert_eq!(r[0].name.as_deref(), Some("retired"));
    assert_eq!(r[0].fingerprint, "RRRRRRRRRR");
}

#[test]
fn loop_repeats_stops_or_aborts() {
    assert_eq!(after_cycle(true, Some(60), false), LoopStep::SleepThenRepeat(60));
    assert_eq!(after_cycle(true, Some(60), true), LoopStep::Stop);
    assert_eq!(after_cycle(true, None, false), LoopStep::Stop);
    assert_eq!(after_cycle(false, Some(60), false), LoopStep::Abort);
    assert_eq!(after_cycle(false, None, true), LoopStep::Abort);
}

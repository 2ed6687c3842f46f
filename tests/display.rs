use innernet_client::display::{sort_for_display, PeerStatus};

fn status(index: usize, ip: u32, last_handshake: Option<u64>) -> PeerStatus {
    PeerStatus { index, ip, last_handshake }
}

#[test]
fn recent_handshake_first_never_last() {
    let older = status(0, 0x0A00_0002, Some(100));
    let newer = status(1, 0x0A00_0003, Some(200));
    let silent = status(2, 0x0A00_0004, None);
    let sorted = sort_for_display(&vec![older, newer, silent]);
    assert_eq!(sorted, vec![newer, older, silent]);
}

#[test]
fn ties_break_by_ascending_address() {
    let a = status(0, 0x0A00_0009, Some(50));
    let b = status(1, 0x0A00_0001, Some(50));
    let c = status(2, 0x0A00_0007, None);
    let d = status(3, 0x0A00_0003, None);
    let sorted = sort_for_display(&vec![a, c, b, d]);
    assert_eq!(sorted, vec![b, a, d, c]);
}

#[test]
fn empty_list_stays_empty() {
    assert!(sort_for_display(&vec![]).is_empty());
}

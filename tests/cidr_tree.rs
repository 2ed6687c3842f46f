use innernet_client::cidr_tree::CidrTree;
use innernet_client::model::{Cidr, ValidationError};

fn cidr(id: i64, a: u8, b: u8, c: u8, d: u8, prefix_len: u8) -> Cidr {
    Cidr {
        id,
        name: format!("block{}", id),
        addr: u32::from_be_bytes([a, b, c, d]),
        prefix_len,
    }
}

#[test]
fn nested_blocks_form_a_tree() {
    let cidrs = vec![
        cidr(1, 10, 0, 0, 0, 8),
        cidr(2, 10, 1, 0, 0, 16),
        cidr(3, 10, 1, 2, 0, 24),
        cidr(4, 10, 2, 0, 0, 16),
        cidr(5, 192, 168, 0, 0, 16),
    ];
    let t = CidrTree::new(cidrs).unwrap();
    assert_eq!(t.len(), 5);
    assert_eq!(t.roots(), vec![0, 4]);
    assert_eq!(t.children(0), vec![1, 3]);
    assert_eq!(t.children(1), vec![2]);
    assert!(t.children(2).is_empty());
    assert_eq!(t.parent(2), Some(1));
    assert_eq!(t.parent(1), Some(0));
    assert_eq!(t.parent(0), None);
    assert_eq!(t.cidr(3).id, 4);
}

#[test]
fn parent_is_smallest_container_whatever_the_order() {
    let cidrs = vec![
        cidr(3, 10, 1, 2, 0, 24),
        cidr(1, 10, 0, 0, 0, 8),
        cidr(2, 10, 1, 0, 0, 16),
    ];
    let t = CidrTree::new(cidrs).unwrap();
    assert_eq!(t.parent(0), Some(2));
    assert_eq!(t.parent(2), Some(1));
    assert_eq!(t.roots(), vec![1]);
}

#[test]
fn host_bits_do_not_move_the_block() {
    let t = CidrTree::new(vec![cidr(1, 10, 0, 0, 0, 8), cidr(2, 10, 1, 2, 99, 24)]).unwrap();
    assert_eq!(t.parent(1), Some(0));
    assert_eq!(cidr(2, 10, 1, 2, 99, 24).range(), (0x0A01_0200, 0x0A01_0300));
}

#[test]
fn full_and_single_address_ranges() {
    assert_eq!(cidr(1, 0, 0, 0, 0, 0).range(), (0, 0x1_0000_0000));
    assert_eq!(cidr(1, 10, 0, 0, 7, 32).range(), (0x0A00_0007, 0x0A00_0008));
}

#[test]
fn equal_ranges_are_refused() {
    let r = CidrTree::new(vec![cidr(1, 10, 0, 0, 0, 16), cidr(2, 10, 0, 0, 0, 16)]);
    assert_eq!(r.err(), Some(ValidationError::PartialOverlap));
}

#[test]
fn prefix_above_32_is_refused() {
    let r = CidrTree::new(vec![cidr(1, 10, 0, 0, 0, 33)]);
    assert_eq!(r.err(), Some(ValidationError::InvalidPrefix));
}

#[test]
fn empty_list_gives_empty_forest() {
    let t = CidrTree::new(vec![]).unwrap();
    assert_eq!(t.len(), 0);
    assert!(t.roots().is_empty());
}

#[test]
fn walk_visits_depth_first_with_levels() {
    let cidrs = vec![
        cidr(1, 10, 0, 0, 0, 8),
        cidr(2, 10, 1, 0, 0, 16),
        cidr(3, 10, 1, 2, 0, 24),
        cidr(4, 10, 2, 0, 0, 16),
        cidr(5, 192, 168, 0, 0, 16),
    ];
    let t = CidrTree::new(cidrs).unwrap();
    assert_eq!(t.walk(), vec![(0, 0), (1, 1), (2, 2), (3, 1), (4, 0)]);
}

#[test]
fn walk_puts_children_under_parent_listed_later() {
    let cidrs = vec![cidr(2, 10, 1, 0, 0, 16), cidr(1, 10, 0, 0, 0, 8)];
    let t = CidrTree::new(cidrs).unwrap();
    assert_eq!(t.walk(), vec![(1, 0), (0, 1)]);
}

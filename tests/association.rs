use innernet_client::association::{Association, AssociationSet};
use innernet_client::model::ValidationError;

fn assoc(id: i64, a: i64, b: i64) -> Association {
    Association { id, cidr_id_1: a, cidr_id_2: b }
}

#[test]
fn association_is_symmetric() {
    let mut s = AssociationSet::new();
    s.insert(assoc(1, 2, 3)).unwrap();
    assert!(s.contains(2, 3));
    assert!(s.contains(3, 2));
    assert!(!s.contains(2, 4));
    assert!(assoc(1, 2, 3).connects(3, 2));
}

#[test]
fn reversed_duplicate_is_refused() {
    let mut s = AssociationSet::new();
    s.insert(assoc(1, 2, 3)).unwrap();
    assert_eq!(s.insert(assoc(2, 3, 2)), Err(ValidationError::DuplicateAssociation));
    assert_eq!(s.len(), 1);
}

#[test]
fn self_association_is_refused() {
    let mut s = AssociationSet::new();
    assert_eq!(s.insert(assoc(1, 4, 4)), Err(ValidationError::SelfAssociation));
    assert_eq!(s.len(), 0);
}

#[test]
fn list_with_repeated_edge_is_refused() {
    let ok = AssociationSet::from_list(&vec![assoc(1, 1, 2), assoc(2, 2, 3)]).unwrap();
    assert_eq!(ok.len(), 2);
    assert_eq!(ok.get(1), assoc(2, 2, 3));
    assert!(AssociationSet::from_list(&vec![assoc(1, 1, 2), assoc(2, 2, 1)]).is_err());
}

#[test]
fn list_errors_name_the_first_bad_edge() {
    assert_eq!(
        AssociationSet::from_list(&vec![assoc(1, 1, 2), assoc(2, 3, 3), assoc(3, 2, 1)]).err(),
        Some(ValidationError::SelfAssociation)
    );
    assert_eq!(
        AssociationSet::from_list(&vec![assoc(1, 1, 2), assoc(2, 2, 1), assoc(3, 3, 3)]).err(),
        Some(ValidationError::DuplicateAssociation)
    );
    assert_eq!(AssociationSet::from_list(&vec![]).unwrap().len(), 0);
}

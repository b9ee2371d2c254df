//! Tests for the account directory and the asset table.

use idp_service::accounts::Accounts;
use idp_service::assets::AssetTable;

#[test]
fn registration_exclusivity() {
    let mut a = Accounts::new();
    assert!(a.register(42, "phone".to_string(), vec![1, 2], None).is_ok());
    // a second registration of the same user fails
    assert!(a.register(42, "tablet".to_string(), vec![3, 4], None).is_err());
    // adding to an unregistered user fails
    assert!(a.add(99, "laptop".to_string(), vec![5, 6], None).is_err());
    // looking up a never-registered user yields the empty list
    assert!(a.lookup(99).is_empty());
    assert_eq!(a.lookup(42).len(), 1);
}

#[test]
fn add_upserts_by_public_key() {
    let mut a = Accounts::new();
    assert!(a.register(1, "phone".to_string(), vec![1], None).is_ok());
    // same key: alias and credential replaced in place
    assert!(a.add(1, "renamed".to_string(), vec![1], Some(vec![9])).is_ok());
    let entries = a.lookup(1);
    assert_eq!(entries.len(), 1);
    assert_eq!(entries[0].alias, "renamed");
    assert_eq!(entries[0].credential_id, Some(vec![9]));
    // new key: appended
    assert!(a.add(1, "tablet".to_string(), vec![2], None).is_ok());
    assert_eq!(a.lookup(1).len(), 2);
}

#[test]
fn remove_matches_public_key() {
    let mut a = Accounts::new();
    assert!(a.register(1, "phone".to_string(), vec![1], None).is_ok());
    assert!(a.add(1, "tablet".to_string(), vec![2], None).is_ok());
    // an unmatched key is a silent no-op
    a.remove(1, vec![7]);
    assert_eq!(a.lookup(1).len(), 2);
    a.remove(1, vec![1]);
    let entries = a.lookup(1);
    assert_eq!(entries.len(), 1);
    assert_eq!(entries[0].pubkey, vec![2]);
    // removing for an unknown user is a silent no-op too
    a.remove(9, vec![1]);
}

#[test]
fn get_delegation_requires_a_registered_pair() {
    let mut a = Accounts::new();
    assert!(a.register(1, "phone".to_string(), vec![1], None).is_ok());
    let sd = a.get_delegation(1, vec![1], 777, Some(vec![vec![5, 5]])).expect("registered pair");
    assert_eq!(sd.delegation.pubkey, vec![1]);
    assert_eq!(sd.delegation.expiration, 777);
    assert_eq!(sd.delegation.targets, Some(vec![vec![5, 5]]));
    assert!(sd.signature.is_empty());
    // unknown key for a known user
    assert!(a.get_delegation(1, vec![2], 777, None).is_err());
    // unknown user
    assert!(a.get_delegation(2, vec![1], 777, None).is_err());
}

#[test]
fn asset_lookup_ignores_the_query_string() {
    let mut t = AssetTable::new();
    t.insert_asset(b"/sample-asset.txt".to_vec(), b"hello".to_vec());
    let hit = t.response_for(&b"/sample-asset.txt?version=3".to_vec());
    assert_eq!(hit.status_code, 200);
    assert_eq!(hit.body, b"hello".to_vec());
    let plain = t.response_for(&b"/sample-asset.txt".to_vec());
    assert_eq!(plain.status_code, 200);
    assert_eq!(plain.body, b"hello".to_vec());
}

#[test]
fn missing_asset_answers_404_with_message() {
    let t = AssetTable::new();
    let miss = t.response_for(&b"/logo.png?x=1".to_vec());
    assert_eq!(miss.status_code, 404);
    assert_eq!(miss.body, b"Asset /logo.png not found.".to_vec());
}

#[test]
fn insert_asset_replaces_contents() {
    let mut t = AssetTable::new();
    t.insert_asset(b"/main.css".to_vec(), b"old".to_vec());
    t.insert_asset(b"/main.css".to_vec(), b"new".to_vec());
    let hit = t.response_for(&b"/main.css".to_vec());
    assert_eq!(hit.status_code, 200);
    assert_eq!(hit.body, b"new".to_vec());
}

//! Tests for the certified signature store.

use idp_service::accounts::Delegation;
use idp_service::hash_tree::reconstruct_digest;
use idp_service::rep_hash::delegation_hash;
use idp_service::signature_map::SignatureMap;

fn sha(bytes: &[u8]) -> [u8; 32] {
    let mut h = <sha2::Sha256 as sha2::Digest>::new();
    sha2::Digest::update(&mut h, bytes);
    sha2::Digest::finalize(h).into()
}

fn seed(n: u8) -> [u8; 32] {
    [n; 32]
}

#[test]
fn empty_root_is_tagged_digest() {
    let m = SignatureMap::new();
    // the empty tree's digest is the hash of the lone empty-tag byte
    assert_eq!(m.root_hash(), sha(&[0u8]));
}

#[test]
fn singleton_root_matches_manual_hash() {
    let mut m = SignatureMap::new();
    m.insert(seed(1), seed(2), 10);
    // inner tree: label (the message digest) over an empty leaf
    let leaf = sha(&[3u8]);
    let mut inner: Vec<u8> = vec![2u8];
    inner.extend_from_slice(&seed(2));
    inner.extend_from_slice(&leaf);
    let inner_hash = sha(&inner);
    // outer tree: label (the seed digest) over the inner tree
    let mut outer: Vec<u8> = vec![2u8];
    outer.extend_from_slice(&seed(1));
    outer.extend_from_slice(&inner_hash);
    assert_eq!(m.root_hash(), sha(&outer));
}

#[test]
fn root_is_order_independent() {
    let mut a = SignatureMap::new();
    a.insert(seed(1), seed(10), 100);
    a.insert(seed(2), seed(20), 100);
    a.insert(seed(2), seed(21), 100);
    a.insert(seed(3), seed(30), 100);

    let mut b = SignatureMap::new();
    b.insert(seed(3), seed(30), 100);
    b.insert(seed(2), seed(21), 100);
    b.insert(seed(1), seed(10), 100);
    b.insert(seed(2), seed(20), 100);

    assert_eq!(a.root_hash(), b.root_hash());
}

#[test]
fn root_is_order_independent_after_pruning() {
    let mut a = SignatureMap::new();
    a.insert(seed(1), seed(10), 5);
    a.insert(seed(2), seed(20), 100);
    assert_eq!(a.prune(50), 1);

    let mut b = SignatureMap::new();
    b.insert(seed(2), seed(20), 100);

    assert_eq!(a.root_hash(), b.root_hash());
}

#[test]
fn witness_recomputes_to_root() {
    let mut m = SignatureMap::new();
    m.insert(seed(1), seed(10), 100);
    m.insert(seed(1), seed(11), 100);
    m.insert(seed(2), seed(20), 100);
    m.insert(seed(4), seed(40), 100);

    let root = m.root_hash();
    for (s, msg) in [(1u8, 10u8), (1, 11), (2, 20), (4, 40)] {
        let w = m.witness(&seed(s), &seed(msg)).expect("entry must have a witness");
        assert_eq!(reconstruct_digest(&w), root);
    }
    assert!(m.witness(&seed(9), &seed(10)).is_none());
    assert!(m.witness(&seed(1), &seed(12)).is_none());
}

#[test]
fn pruning_removes_expired_entries_completely() {
    let mut m = SignatureMap::new();
    m.insert(seed(1), seed(10), 5);
    m.insert(seed(2), seed(20), 7);
    m.insert(seed(2), seed(21), 9);
    assert_eq!(m.prune(9), 3);
    assert!(m.witness(&seed(1), &seed(10)).is_none());
    assert!(m.witness(&seed(2), &seed(20)).is_none());
    assert!(m.witness(&seed(2), &seed(21)).is_none());
    assert_eq!(m.root_hash(), SignatureMap::new().root_hash());
}

#[test]
fn pruning_keeps_live_entries_and_their_witnesses() {
    let mut m = SignatureMap::new();
    m.insert(seed(1), seed(10), 5);
    m.insert(seed(2), seed(20), 100);
    assert_eq!(m.prune(50), 1);
    let root = m.root_hash();
    let w = m.witness(&seed(2), &seed(20)).expect("live entry keeps its witness");
    assert_eq!(reconstruct_digest(&w), root);
    assert!(m.witness(&seed(1), &seed(10)).is_none());
}

#[test]
fn reinsertion_is_a_no_op_while_present() {
    let mut m = SignatureMap::new();
    m.insert(seed(1), seed(10), 100);
    let root = m.root_hash();
    m.insert(seed(1), seed(10), 999);
    assert_eq!(m.root_hash(), root);
    // the earlier expiration still governs pruning
    assert_eq!(m.prune(100), 1);
}

#[test]
fn certified_data_hash_wraps_root_under_sig_label() {
    let mut m = SignatureMap::new();
    m.insert(seed(1), seed(10), 100);
    let root = m.root_hash();
    let mut labeled: Vec<u8> = vec![2u8];
    labeled.extend_from_slice(b"sig");
    labeled.extend_from_slice(&root);
    assert_eq!(m.certified_data_hash(), sha(&labeled));
}

#[test]
fn signature_tree_recomputes_to_certified_hash() {
    let mut m = SignatureMap::new();
    m.insert(seed(1), seed(10), 100);
    m.insert(seed(2), seed(20), 100);
    let t = m.signature_tree(&seed(1), &seed(10)).expect("present entry");
    assert_eq!(reconstruct_digest(&t), m.certified_data_hash());
    assert!(m.signature_tree(&seed(3), &seed(10)).is_none());
}

#[test]
fn delegation_digest_orders_labeled_pairs() {
    let d = Delegation { pubkey: vec![1, 2, 3], expiration: 300, targets: None };
    // 300 as a little-endian base-128 varint
    let leb = vec![0xACu8, 0x02];
    let mut pair_pk: Vec<u8> = sha(b"pubkey").to_vec();
    pair_pk.extend_from_slice(&sha(&[1, 2, 3]));
    let mut pair_exp: Vec<u8> = sha(b"expiration").to_vec();
    pair_exp.extend_from_slice(&sha(&leb));
    let mut pairs = vec![pair_pk.clone(), pair_exp.clone()];
    pairs.sort();
    let mut cat: Vec<u8> = Vec::new();
    for p in &pairs {
        cat.extend_from_slice(p);
    }
    assert_eq!(delegation_hash(&d), sha(&cat));

    // with a target list, a third pair joins the ordering
    let d2 = Delegation {
        pubkey: vec![1, 2, 3],
        expiration: 300,
        targets: Some(vec![vec![9], vec![8, 8]]),
    };
    let mut tcat: Vec<u8> = sha(&[9]).to_vec();
    tcat.extend_from_slice(&sha(&[8, 8]));
    let mut pair_tg: Vec<u8> = sha(b"targets").to_vec();
    pair_tg.extend_from_slice(&sha(&tcat));
    let mut pairs3 = vec![pair_pk, pair_exp, pair_tg];
    pairs3.sort();
    let mut cat3: Vec<u8> = Vec::new();
    for p in &pairs3 {
        cat3.extend_from_slice(p);
    }
    assert_eq!(delegation_hash(&d2), sha(&cat3));
}

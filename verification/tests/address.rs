use wallet_core::crypto::generate_keypair;
use wallet_core::merkle::{create, prove, verify, AddressBook};
use wallet_core::types::PublicKey;
use wallet_core::WalletError;

fn three_keys() -> (PublicKey, PublicKey, PublicKey) {
    let (_, a) = generate_keypair();
    let (_, b) = generate_keypair();
    let (_, c) = generate_keypair();
    (a, b, c)
}

#[test]
fn create_rejects_zero_threshold() {
    let (a, b, _) = three_keys();
    let r = create(&vec![a, b], 0);
    assert!(matches!(r, Err(WalletError::InvalidInput)));
}

#[test]
fn create_rejects_empty_members() {
    let r = create(&Vec::new(), 1);
    assert!(matches!(r, Err(WalletError::InvalidInput)));
}

#[test]
fn create_rejects_threshold_above_member_count() {
    let (a, b, _) = three_keys();
    let r = create(&vec![a, b], 3);
    assert!(matches!(r, Err(WalletError::InvalidInput)));
}

#[test]
fn create_rejects_duplicate_member() {
    let (a, b, _) = three_keys();
    let r = create(&vec![a, b, a], 2);
    assert!(matches!(r, Err(WalletError::InvalidInput)));
}

#[test]
fn create_is_deterministic_whatever_the_key_order() {
    let (a, b, c) = three_keys();
    let addr1 = create(&vec![a, b, c], 2).unwrap();
    let addr2 = create(&vec![c, a, b], 2).unwrap();
    assert_eq!(addr1.root_hash, addr2.root_hash);
    let addr3 = create(&vec![b, c, a], 3).unwrap();
    assert_eq!(addr1.root_hash, addr3.root_hash);
}

#[test]
fn different_key_sets_give_different_roots() {
    let (a, b, c) = three_keys();
    let addr1 = create(&vec![a, b], 1).unwrap();
    let addr2 = create(&vec![a, c], 1).unwrap();
    assert_ne!(addr1.root_hash, addr2.root_hash);
}

#[test]
fn prove_then_verify_succeeds_for_qualifying_subsets() {
    let (a, b, c) = three_keys();
    let addr = create(&vec![a, b, c], 2).unwrap();
    let pf = prove(&addr, &vec![a, c]).unwrap();
    assert!(verify(&addr.root_hash, &pf));
    let pf_all = prove(&addr, &vec![c, b, a]).unwrap();
    assert!(verify(&addr.root_hash, &pf_all));
}

#[test]
fn prove_fails_below_threshold() {
    let (a, b, c) = three_keys();
    let addr = create(&vec![a, b, c], 2).unwrap();
    let r = prove(&addr, &vec![b]);
    assert!(matches!(r, Err(WalletError::InvalidInput)));
}

#[test]
fn prove_fails_for_outsider_key() {
    let (a, b, c) = three_keys();
    let (_, outsider) = generate_keypair();
    let addr = create(&vec![a, b, c], 2).unwrap();
    let r = prove(&addr, &vec![a, outsider]);
    assert!(matches!(r, Err(WalletError::InvalidInput)));
}

#[test]
fn verify_rejects_a_wrong_root() {
    let (a, b, c) = three_keys();
    let addr = create(&vec![a, b, c], 2).unwrap();
    let pf = prove(&addr, &vec![a, b]).unwrap();
    let mut wrong = addr.root_hash;
    wrong[0] = wrong[0].wrapping_add(1);
    assert!(!verify(&wrong, &pf));
}

#[test]
fn verify_rejects_a_tampered_sibling() {
    let (a, b, c) = three_keys();
    let addr = create(&vec![a, b, c], 2).unwrap();
    let mut pf = prove(&addr, &vec![a, b]).unwrap();
    assert_eq!(pf.siblings.len(), 1);
    pf.siblings[0][3] = pf.siblings[0][3].wrapping_add(1);
    assert!(!verify(&addr.root_hash, &pf));
}

#[test]
fn threshold_lookup_by_root_hash() {
    let (a, b, c) = three_keys();
    let addr = create(&vec![a, b, c], 2).unwrap();
    let root = addr.root_hash;
    let mut book = AddressBook::new();
    book.add(addr).unwrap();
    assert_eq!(book.threshold_of(&root).unwrap(), 2);
    let unknown = [7u8; 32];
    assert!(matches!(book.threshold_of(&unknown), Err(WalletError::NotFound)));
}

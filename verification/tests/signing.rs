use wallet_core::crypto::{aggregate_public_keys, generate_keypair, schnorr_sign, verify_signature};
use wallet_core::merkle::create;
use wallet_core::session::{SessionState, SigningSession};
use wallet_core::types::PublicKey;
use wallet_core::WalletError;

fn aggregate(keys: &[PublicKey]) -> PublicKey {
    aggregate_public_keys(&keys.to_vec()).unwrap()
}

#[test]
fn schnorr_sign_then_verify() {
    let (sk, pk) = generate_keypair();
    let message = [9u8; 32];
    let sig = schnorr_sign(&sk, &message).unwrap();
    assert!(verify_signature(&pk, &message, &sig));
    let other = [10u8; 32];
    assert!(!verify_signature(&pk, &other, &sig));
}

#[test]
fn session_requires_self_among_signers() {
    let (ska, _pka) = generate_keypair();
    let (_, pkb) = generate_keypair();
    let (_, pkc) = generate_keypair();
    let message = [1u8; 32];
    let r = SigningSession::new(&message, &vec![pkb, pkc], &pkc, &ska);
    // the private key does not match the claimed self key
    assert!(matches!(r, Err(WalletError::InvalidInput)));
    let (skd, pkd) = generate_keypair();
    let r2 = SigningSession::new(&message, &vec![pkb, pkc], &pkd, &skd);
    assert!(matches!(r2, Err(WalletError::InvalidInput)));
}

#[test]
fn single_signer_session_completes_at_once() {
    let (sk, pk) = generate_keypair();
    let message = [2u8; 32];
    let s = SigningSession::new(&message, &vec![pk], &pk, &sk).unwrap();
    assert_eq!(s.state, SessionState::Complete);
    let sig = s.signature().unwrap();
    assert!(verify_signature(&pk, &message, &sig));
}

#[test]
fn three_party_session_reaches_complete_and_signature_verifies() {
    let (ska, pka) = generate_keypair();
    let (skb, pkb) = generate_keypair();
    let (skc, pkc) = generate_keypair();
    let signers = vec![pka, pkb, pkc];
    let message = [3u8; 32];
    let mut sa = SigningSession::new(&message, &signers, &pka, &ska).unwrap();
    let mut sb = SigningSession::new(&message, &signers, &pkb, &skb).unwrap();
    let mut sc = SigningSession::new(&message, &signers, &pkc, &skc).unwrap();
    // every cosigner derives the same session identifier
    assert_eq!(sa.session_id, sb.session_id);
    assert_eq!(sb.session_id, sc.session_id);
    // commitment round
    sa.add_commitment(&pkb, &sb.nonce_commitment()).unwrap();
    sa.add_commitment(&pkc, &sc.nonce_commitment()).unwrap();
    sb.add_commitment(&pka, &sa.nonce_commitment()).unwrap();
    sb.add_commitment(&pkc, &sc.nonce_commitment()).unwrap();
    sc.add_commitment(&pka, &sa.nonce_commitment()).unwrap();
    sc.add_commitment(&pkb, &sb.nonce_commitment()).unwrap();
    assert_eq!(sa.state, SessionState::CollectingNonces);
    // nonce round
    let na = sa.nonce().unwrap();
    let nb = sb.nonce().unwrap();
    let nc = sc.nonce().unwrap();
    sa.add_nonce(&pkb, &nb).unwrap();
    sa.add_nonce(&pkc, &nc).unwrap();
    sb.add_nonce(&pka, &na).unwrap();
    sb.add_nonce(&pkc, &nc).unwrap();
    sc.add_nonce(&pka, &na).unwrap();
    sc.add_nonce(&pkb, &nb).unwrap();
    assert_eq!(sa.state, SessionState::CollectingPartials);
    // partial-signature round
    let pa = sa.partial_signature().unwrap();
    let pb = sb.partial_signature().unwrap();
    let pc = sc.partial_signature().unwrap();
    sa.add_partial_signature(&pkb, &pb).unwrap();
    sa.add_partial_signature(&pkc, &pc).unwrap();
    sb.add_partial_signature(&pka, &pa).unwrap();
    sb.add_partial_signature(&pkc, &pc).unwrap();
    sc.add_partial_signature(&pka, &pa).unwrap();
    sc.add_partial_signature(&pkb, &pb).unwrap();
    assert_eq!(sa.state, SessionState::Complete);
    assert_eq!(sb.state, SessionState::Complete);
    assert_eq!(sc.state, SessionState::Complete);
    // every cosigner holds the same aggregate signature
    let siga = sa.signature().unwrap();
    let sigb = sb.signature().unwrap();
    assert_eq!(siga.nonce_point, sigb.nonce_point);
    assert_eq!(siga.response, sigb.response);
    // and it verifies against the aggregate of the signers' keys
    let agg = aggregate(&signers);
    assert!(verify_signature(&agg, &message, &siga));
    // a mutating call after completion is rejected
    let r = sa.add_commitment(&pkb, &[0u8; 32]);
    assert!(matches!(r, Err(WalletError::InvalidInput)));
}

#[test]
fn threshold_not_met_by_silent_cosigner_never_completes() {
    // a 2-of-3 address over {A, B, C}; a session between A and B where B
    // stays silent can never reach completion
    let (ska, pka) = generate_keypair();
    let (_skb, pkb) = generate_keypair();
    let (_skc, pkc) = generate_keypair();
    let addr = create(&vec![pka, pkb, pkc], 2).unwrap();
    assert_eq!(addr.threshold, 2);
    let message = [4u8; 32];
    let sa = SigningSession::new(&message, &vec![pka, pkb], &pka, &ska).unwrap();
    // A alone has contributed; without B the commitment round stays open
    assert_eq!(sa.state, SessionState::CollectingCommitments);
    assert!(matches!(sa.signature(), Err(WalletError::InvalidInput)));
    assert!(matches!(sa.nonce(), Err(WalletError::InvalidInput)));
    assert!(matches!(sa.partial_signature(), Err(WalletError::InvalidInput)));
}

#[test]
fn duplicate_contributions_are_rejected_and_never_overwrite() {
    let (ska, pka) = generate_keypair();
    let (skb, pkb) = generate_keypair();
    let signers = vec![pka, pkb];
    let message = [5u8; 32];
    let mut sa = SigningSession::new(&message, &signers, &pka, &ska).unwrap();
    let mut sb = SigningSession::new(&message, &signers, &pkb, &skb).unwrap();
    let cb = sb.nonce_commitment();
    sa.add_commitment(&pkb, &cb).unwrap();
    sb.add_commitment(&pka, &sa.nonce_commitment()).unwrap();
    // a second commitment for B is rejected, whatever it claims
    let r = sa.add_commitment(&pkb, &[0xAAu8; 32]);
    assert!(matches!(r, Err(WalletError::IllegalInput)));
    // the first value still governs the nonce round
    let nb = sb.nonce().unwrap();
    sa.add_nonce(&pkb, &nb).unwrap();
    assert_eq!(sa.state, SessionState::CollectingPartials);
}

#[test]
fn nonce_must_match_commitment() {
    let (ska, pka) = generate_keypair();
    let (skb, pkb) = generate_keypair();
    let signers = vec![pka, pkb];
    let message = [6u8; 32];
    let mut sa = SigningSession::new(&message, &signers, &pka, &ska).unwrap();
    let mut sb = SigningSession::new(&message, &signers, &pkb, &skb).unwrap();
    sa.add_commitment(&pkb, &sb.nonce_commitment()).unwrap();
    sb.add_commitment(&pka, &sa.nonce_commitment()).unwrap();
    // a nonce that does not hash to the commitment is rejected and the
    // session does not advance
    let (_, fake) = generate_keypair();
    let r = sa.add_nonce(&pkb, &fake.bytes);
    assert!(matches!(r, Err(WalletError::IllegalInput)));
    assert_eq!(sa.state, SessionState::CollectingNonces);
    // the honest nonce is still accepted afterwards
    sa.add_nonce(&pkb, &sb.nonce().unwrap()).unwrap();
    assert_eq!(sa.state, SessionState::CollectingPartials);
}

#[test]
fn contributions_from_outside_the_signer_set_are_rejected() {
    let (ska, pka) = generate_keypair();
    let (_, pkb) = generate_keypair();
    let (_, outsider) = generate_keypair();
    let message = [7u8; 32];
    let mut sa = SigningSession::new(&message, &vec![pka, pkb], &pka, &ska).unwrap();
    let r = sa.add_commitment(&outsider, &[1u8; 32]);
    assert!(matches!(r, Err(WalletError::InvalidInput)));
}

#[test]
fn invalid_partial_signature_is_rejected() {
    let (ska, pka) = generate_keypair();
    let (skb, pkb) = generate_keypair();
    let signers = vec![pka, pkb];
    let message = [8u8; 32];
    let mut sa = SigningSession::new(&message, &signers, &pka, &ska).unwrap();
    let mut sb = SigningSession::new(&message, &signers, &pkb, &skb).unwrap();
    sa.add_commitment(&pkb, &sb.nonce_commitment()).unwrap();
    sb.add_commitment(&pka, &sa.nonce_commitment()).unwrap();
    let na = sa.nonce().unwrap();
    let nb = sb.nonce().unwrap();
    sa.add_nonce(&pkb, &nb).unwrap();
    sb.add_nonce(&pka, &na).unwrap();
    // a junk scalar fails the per-signer verification equation
    let r = sa.add_partial_signature(&pkb, &[0x55u8; 32]);
    assert!(matches!(r, Err(WalletError::IllegalInput)));
    assert_eq!(sa.state, SessionState::CollectingPartials);
    // the honest partial completes the session
    let pb = sb.partial_signature().unwrap();
    sa.add_partial_signature(&pkb, &pb).unwrap();
    assert_eq!(sa.state, SessionState::Complete);
}

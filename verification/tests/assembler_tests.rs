use wallet_core::assembler::{
    assemble_multisig_transaction, build_transaction, select_inputs, InputSelectionStrategy,
    TxWitness, UnspentTransactions,
};
use wallet_core::crypto::generate_keypair;
use wallet_core::ledger::{WalletState, WalletStateMemento};
use wallet_core::merkle::{create, verify, AddressBook};
use wallet_core::session::{SessionState, SigningSession};
use wallet_core::sync::transaction_id;
use wallet_core::types::{Coin, Transaction, TxOut, TxoPointer, MAX_COIN};
use wallet_core::WalletError;

fn ptr(tag: u8, index: u64) -> TxoPointer {
    TxoPointer { txid: [tag; 32], index }
}

fn entry(tag: u8, value: u64) -> (TxoPointer, TxOut) {
    (ptr(tag, 0), TxOut { address: [9u8; 32], value: Coin { value } })
}

#[test]
fn strategies_order_the_snapshot() {
    let mut u = UnspentTransactions::new(vec![entry(1, 70), entry(2, 30), entry(3, 50)]);
    u.apply_strategy(InputSelectionStrategy::SmallestCoinsFirst);
    let small: Vec<u64> = u.entries.iter().map(|e| e.1.value.value).collect();
    assert_eq!(small, vec![30, 50, 70]);
    u.apply_strategy(InputSelectionStrategy::LargestCoinsFirst);
    let large: Vec<u64> = u.entries.iter().map(|e| e.1.value.value).collect();
    assert_eq!(large, vec![70, 50, 30]);
    assert_eq!(InputSelectionStrategy::default(), InputSelectionStrategy::SmallestCoinsFirst);
}

#[test]
fn equal_snapshots_select_identically_and_ties_keep_snapshot_order() {
    // two equal-valued entries: the policy is a pure function of the
    // snapshot, so both runs order and select the same way
    let entries = vec![entry(4, 50), entry(1, 20), entry(2, 20), entry(3, 50)];
    let mut u1 = UnspentTransactions::new(entries.clone());
    let mut u2 = UnspentTransactions::new(entries);
    u1.apply_strategy(InputSelectionStrategy::SmallestCoinsFirst);
    u2.apply_strategy(InputSelectionStrategy::SmallestCoinsFirst);
    let order1: Vec<[u8; 32]> = u1.entries.iter().map(|e| e.0.txid).collect();
    let order2: Vec<[u8; 32]> = u2.entries.iter().map(|e| e.0.txid).collect();
    assert_eq!(order1, order2);
    // ties keep snapshot order: the two 20s as given, then the two 50s
    assert_eq!(order1, vec![[1u8; 32], [2u8; 32], [4u8; 32], [3u8; 32]]);
    let (p1, t1) = select_inputs(&u1, 60).unwrap();
    let (p2, t2) = select_inputs(&u2, 60).unwrap();
    assert_eq!(t1, t2);
    let ids1: Vec<[u8; 32]> = p1.iter().map(|p| p.txid).collect();
    let ids2: Vec<[u8; 32]> = p2.iter().map(|p| p.txid).collect();
    assert_eq!(ids1, ids2);
    assert_eq!(ids1, vec![[1u8; 32], [2u8; 32], [4u8; 32]]);
}

#[test]
fn selection_takes_a_covering_prefix() {
    let u = UnspentTransactions::new(vec![entry(1, 30), entry(2, 50), entry(3, 70)]);
    let (picked, total) = select_inputs(&u, 60).unwrap();
    assert_eq!(picked.len(), 2);
    assert_eq!(picked[0].txid, [1u8; 32]);
    assert_eq!(picked[1].txid, [2u8; 32]);
    assert_eq!(total, 80);
}

#[test]
fn selection_fails_without_cover() {
    let u = UnspentTransactions::new(vec![entry(1, 30), entry(2, 50)]);
    let r = select_inputs(&u, 100);
    assert!(matches!(r, Err(WalletError::InsufficientFunds)));
}

#[test]
fn build_adds_a_change_output_for_the_surplus() {
    let u = UnspentTransactions::new(vec![entry(1, 30), entry(2, 70)]);
    let outputs = vec![TxOut { address: [5u8; 32], value: Coin { value: 40 } }];
    let ret = [6u8; 32];
    let (tx, used, change) = build_transaction(&u, &outputs, &ret, Coin { value: 10 }).unwrap();
    // required 50: both inputs are taken, surplus 50 returns as change
    assert_eq!(used.len(), 2);
    assert_eq!(change.value, 50);
    assert_eq!(tx.inputs.len(), 2);
    assert_eq!(tx.outputs.len(), 2);
    assert_eq!(tx.outputs[0].value.value, 40);
    assert_eq!(tx.outputs[1].address, ret);
    assert_eq!(tx.outputs[1].value.value, 50);
}

#[test]
fn build_with_exact_cover_has_no_change_output() {
    let u = UnspentTransactions::new(vec![entry(1, 50)]);
    let outputs = vec![TxOut { address: [5u8; 32], value: Coin { value: 45 } }];
    let (tx, used, change) = build_transaction(&u, &outputs, &[6u8; 32], Coin { value: 5 }).unwrap();
    assert_eq!(used.len(), 1);
    assert_eq!(change.value, 0);
    assert_eq!(tx.outputs.len(), 1);
}

#[test]
fn build_rejects_coin_overflow() {
    let u = UnspentTransactions::new(vec![entry(1, 50)]);
    let outputs = vec![
        TxOut { address: [5u8; 32], value: Coin { value: MAX_COIN } },
        TxOut { address: [5u8; 32], value: Coin { value: 1 } },
    ];
    let r = build_transaction(&u, &outputs, &[6u8; 32], Coin { value: 0 });
    assert!(matches!(r, Err(WalletError::InvalidInput)));
}

#[test]
fn insufficient_funds_leaves_the_ledger_unmodified() {
    let mut state = WalletState::new();
    let mut m = WalletStateMemento::new();
    m.add_unspent_transaction(ptr(1, 0), TxOut { address: [9u8; 32], value: Coin { value: 40 } });
    state.apply(&m).unwrap();
    let u = UnspentTransactions::from_state(&state);
    let outputs = vec![TxOut { address: [5u8; 32], value: Coin { value: 100 } }];
    let r = build_transaction(&u, &outputs, &[6u8; 32], Coin { value: 0 });
    assert!(matches!(r, Err(WalletError::InsufficientFunds)));
    // the failed build touched nothing in the wallet
    assert_eq!(state.unspent.len(), 1);
    assert_eq!(state.balance().unwrap().value, 40);
    assert_eq!(state.history(0, 10, false).len(), 0);
}

#[test]
fn multisig_witness_assembly() {
    let (ska, pka) = generate_keypair();
    let (skb, pkb) = generate_keypair();
    let addr = create(&vec![pka, pkb], 2).unwrap();
    let root = addr.root_hash;
    let mut book = AddressBook::new();
    book.add(addr).unwrap();
    // the wallet holds one unspent output at the threshold address
    let mut state = WalletState::new();
    let mut m = WalletStateMemento::new();
    m.add_unspent_transaction(ptr(1, 0), TxOut { address: root, value: Coin { value: 100 } });
    state.apply(&m).unwrap();
    // the unsigned spend of that output
    let tx = Transaction {
        inputs: vec![ptr(1, 0)],
        outputs: vec![TxOut { address: [5u8; 32], value: Coin { value: 100 } }],
    };
    let message = transaction_id(&tx);
    // both members cosign the spend
    let signers = vec![pka, pkb];
    let mut sa = SigningSession::new(&message, &signers, &pka, &ska).unwrap();
    let mut sb = SigningSession::new(&message, &signers, &pkb, &skb).unwrap();
    sa.add_commitment(&pkb, &sb.nonce_commitment()).unwrap();
    sb.add_commitment(&pka, &sa.nonce_commitment()).unwrap();
    let na = sa.nonce().unwrap();
    let nb = sb.nonce().unwrap();
    sa.add_nonce(&pkb, &nb).unwrap();
    sb.add_nonce(&pka, &na).unwrap();
    let pb = sb.partial_signature().unwrap();
    sa.add_partial_signature(&pkb, &pb).unwrap();
    assert_eq!(sa.state, SessionState::Complete);
    let signed = assemble_multisig_transaction(&state, &book, &sa, tx).unwrap();
    let TxWitness::TreeSig(sig, pf) = &signed.witness;
    assert!(verify(&root, pf));
    assert_eq!(sig.response, sa.signature().unwrap().response);
    // a transaction with more than one input is refused
    let tx2 = Transaction { inputs: vec![ptr(1, 0), ptr(2, 0)], outputs: Vec::new() };
    let r = assemble_multisig_transaction(&state, &book, &sa, tx2);
    assert!(matches!(r, Err(WalletError::InvalidInput)));
    // an input the wallet does not hold is refused
    let tx3 = Transaction { inputs: vec![ptr(7, 0)], outputs: Vec::new() };
    let r3 = assemble_multisig_transaction(&state, &book, &sa, tx3);
    assert!(matches!(r3, Err(WalletError::InvalidInput)));
}

#[test]
fn multisig_assembly_rejects_unknown_spending_address() {
    let (ska, pka) = generate_keypair();
    let mut state = WalletState::new();
    let mut m = WalletStateMemento::new();
    // an output at an address the book does not know
    m.add_unspent_transaction(ptr(1, 0), TxOut { address: [9u8; 32], value: Coin { value: 10 } });
    state.apply(&m).unwrap();
    let book = AddressBook::new();
    let tx = Transaction { inputs: vec![ptr(1, 0)], outputs: Vec::new() };
    let message = transaction_id(&tx);
    let sa = SigningSession::new(&message, &vec![pka], &pka, &ska).unwrap();
    let r = assemble_multisig_transaction(&state, &book, &sa, tx);
    assert!(matches!(r, Err(WalletError::IllegalInput)));
}

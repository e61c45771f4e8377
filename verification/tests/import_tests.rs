use wallet_core::blob::{decode_transaction_blob, encode_transaction_blob};
use wallet_core::ledger::{WalletState, WalletStateMemento};
use wallet_core::sync::{import_transaction, read_spent_flags, transaction_id, Wallet};
use wallet_core::types::{BalanceChange, Coin, Transaction, TxOut, TxoPointer};
use wallet_core::WalletError;

fn owned_wallet(addr: [u8; 32]) -> Wallet {
    Wallet { transfer_addresses: vec![addr] }
}

fn two_output_tx(own_addr: [u8; 32]) -> Transaction {
    Transaction {
        inputs: Vec::new(),
        outputs: vec![
            TxOut { address: own_addr, value: Coin { value: 100 } },
            TxOut { address: [0x22u8; 32], value: Coin { value: 50 } },
        ],
    }
}

#[test]
fn import_incoming_transaction_scenario() {
    // wallet owns P; a 2-output transaction pays (P, 100) and (Q, 50), both
    // still unspent; importing at height 10 yields 100, adds pointer 0 to
    // the unspent set and records one incoming history entry
    let own_addr = [0x11u8; 32];
    let wallet = owned_wallet(own_addr);
    let mut state = WalletState::new();
    let tx = two_output_tx(own_addr);
    let tid = transaction_id(&tx);
    let mut memento = WalletStateMemento::new();
    let imported = import_transaction(
        &wallet,
        &state,
        &mut memento,
        &tx,
        10,
        1000,
        &vec![tid],
        &vec![false, false],
    )
    .unwrap();
    assert_eq!(imported.value, 100);
    state.apply(&memento).unwrap();
    assert_eq!(state.unspent.len(), 1);
    assert_eq!(state.unspent[0].0.txid, tid);
    assert_eq!(state.unspent[0].0.index, 0);
    assert_eq!(state.unspent[0].1.value.value, 100);
    let history = state.history(0, 10, false);
    assert_eq!(history.len(), 1);
    assert!(matches!(history[0].balance_change, BalanceChange::Incoming(c) if c.value == 100));
    assert_eq!(history[0].block_height, 10);
}

#[test]
fn import_round_trip_returns_exactly_the_owned_unspent_outputs() {
    let own_addr = [0x33u8; 32];
    let wallet = owned_wallet(own_addr);
    let mut state = WalletState::new();
    let tx = Transaction {
        inputs: Vec::new(),
        outputs: vec![
            TxOut { address: own_addr, value: Coin { value: 10 } },
            TxOut { address: own_addr, value: Coin { value: 20 } }, // already spent
            TxOut { address: [0x44u8; 32], value: Coin { value: 30 } }, // not ours
            TxOut { address: own_addr, value: Coin { value: 40 } },
        ],
    };
    let tid = transaction_id(&tx);
    let mut memento = WalletStateMemento::new();
    let imported = import_transaction(
        &wallet,
        &state,
        &mut memento,
        &tx,
        5,
        500,
        &vec![[9u8; 32], tid],
        &vec![false, true, false, false],
    )
    .unwrap();
    state.apply(&memento).unwrap();
    // exactly the owned, still-unspent outputs are back, summing to the
    // imported amount
    assert_eq!(state.unspent.len(), 2);
    assert_eq!(state.unspent[0].0.index, 0);
    assert_eq!(state.unspent[1].0.index, 3);
    let total: u64 = state.unspent.iter().map(|e| e.1.value.value).sum();
    assert_eq!(total, imported.value);
    assert_eq!(imported.value, 50);
}

#[test]
fn import_rejects_flag_count_mismatch() {
    let own_addr = [0x11u8; 32];
    let wallet = owned_wallet(own_addr);
    let state = WalletState::new();
    let tx = two_output_tx(own_addr);
    let tid = transaction_id(&tx);
    let mut memento = WalletStateMemento::new();
    let r = import_transaction(&wallet, &state, &mut memento, &tx, 10, 1000, &vec![tid], &vec![false]);
    assert!(matches!(r, Err(WalletError::InvalidInput)));
    assert_eq!(memento.ops.len(), 0);
}

#[test]
fn import_rejects_transaction_missing_from_block() {
    let own_addr = [0x11u8; 32];
    let wallet = owned_wallet(own_addr);
    let state = WalletState::new();
    let tx = two_output_tx(own_addr);
    let mut memento = WalletStateMemento::new();
    let r = import_transaction(
        &wallet,
        &state,
        &mut memento,
        &tx,
        10,
        1000,
        &vec![[0u8; 32]],
        &vec![false, false],
    );
    assert!(matches!(r, Err(WalletError::InvalidInput)));
    assert_eq!(memento.ops.len(), 0);
}

#[test]
fn transaction_id_depends_on_content() {
    let t1 = two_output_tx([0x11u8; 32]);
    let mut t2 = two_output_tx([0x11u8; 32]);
    assert_eq!(transaction_id(&t1), transaction_id(&t2));
    t2.outputs[0].value = Coin { value: 101 };
    assert_ne!(transaction_id(&t1), transaction_id(&t2));
}

#[test]
fn spent_flag_bitmap_semantics() {
    // 0b10100000 0b00010010: bits 0 and 2 set in the first byte, 11 and 14
    // in the second
    let bitmap = vec![0b1010_0000u8, 0b0001_0010u8];
    let flags = read_spent_flags(&bitmap, 16).unwrap();
    let expected = [
        true, false, true, false, false, false, false, false, false, false, false, true, false,
        false, true, false,
    ];
    assert_eq!(flags.len(), 16);
    for (i, e) in expected.iter().enumerate() {
        assert_eq!(flags[i], *e);
    }
    // asking for more outputs than the bitmap covers is rejected
    let r = read_spent_flags(&bitmap, 17);
    assert!(matches!(r, Err(WalletError::InvalidInput)));
}

#[test]
fn transaction_blob_round_trip() {
    let payload = vec![0u8, 1, 2, 250, 255, 17];
    let text = encode_transaction_blob(&payload);
    assert!(!text.is_empty());
    let back = decode_transaction_blob(&text).unwrap();
    assert_eq!(back, payload);
    let r = decode_transaction_blob("@@@not-base64@@@");
    assert!(matches!(r, Err(WalletError::DecryptionError)));
}

use wallet_core::ledger::{WalletState, WalletStateMemento};
use wallet_core::types::{BalanceChange, Coin, TransactionChange, TransactionPending, TxOut, TxoPointer, MAX_COIN};
use wallet_core::WalletError;

fn ptr(tag: u8, index: u64) -> TxoPointer {
    TxoPointer { txid: [tag; 32], index }
}

fn out(addr_tag: u8, value: u64) -> TxOut {
    TxOut { address: [addr_tag; 32], value: Coin { value } }
}

fn change(id_tag: u8, effect: BalanceChange, height: u64) -> TransactionChange {
    TransactionChange {
        transaction_id: [id_tag; 32],
        outputs: Vec::new(),
        balance_change: effect,
        block_height: height,
        block_time: height * 10,
    }
}

#[test]
fn apply_is_all_or_nothing() {
    let mut state = WalletState::new();
    let mut setup = WalletStateMemento::new();
    setup.add_unspent_transaction(ptr(1, 0), out(9, 100));
    state.apply(&setup).unwrap();
    assert_eq!(state.unspent.len(), 1);
    // a batch whose final staged operation is invalid leaves nothing visible
    let mut batch = WalletStateMemento::new();
    batch.add_unspent_transaction(ptr(2, 0), out(9, 50));
    batch.add_transaction_change(change(2, BalanceChange::Incoming(Coin { value: 50 }), 5));
    batch.add_unspent_transaction(ptr(1, 0), out(9, 100)); // duplicate pointer: invalid
    let r = state.apply(&batch);
    assert!(matches!(r, Err(WalletError::InvalidInput)));
    assert_eq!(state.unspent.len(), 1);
    assert_eq!(state.history.len(), 0);
    // the same batch without the bad tail applies fully
    let mut good = WalletStateMemento::new();
    good.add_unspent_transaction(ptr(2, 0), out(9, 50));
    good.add_transaction_change(change(2, BalanceChange::Incoming(Coin { value: 50 }), 5));
    state.apply(&good).unwrap();
    assert_eq!(state.unspent.len(), 2);
    assert_eq!(state.history.len(), 1);
}

#[test]
fn pending_transactions_add_and_remove() {
    let mut state = WalletState::new();
    let pending = TransactionPending {
        block_height: 7,
        used_inputs: vec![ptr(1, 0)],
        return_amount: Coin { value: 3 },
    };
    state.update_tx_pending_state([5u8; 32], pending).unwrap();
    assert_eq!(state.pending.len(), 1);
    // adding the same id again is invalid
    let pending2 = TransactionPending {
        block_height: 8,
        used_inputs: Vec::new(),
        return_amount: Coin { value: 0 },
    };
    let r = state.update_tx_pending_state([5u8; 32], pending2);
    assert!(matches!(r, Err(WalletError::InvalidInput)));
    // removal of an absent id is invalid and removal of a present one works
    let mut m = WalletStateMemento::new();
    m.remove_pending_transaction([6u8; 32]);
    assert!(matches!(state.apply(&m), Err(WalletError::InvalidInput)));
    let mut m2 = WalletStateMemento::new();
    m2.remove_pending_transaction([5u8; 32]);
    state.apply(&m2).unwrap();
    assert_eq!(state.pending.len(), 0);
}

#[test]
fn balance_sums_unspent_values() {
    let mut state = WalletState::new();
    let mut m = WalletStateMemento::new();
    m.add_unspent_transaction(ptr(1, 0), out(9, 100));
    m.add_unspent_transaction(ptr(1, 1), out(9, 250));
    state.apply(&m).unwrap();
    assert_eq!(state.balance().unwrap().value, 350);
}

#[test]
fn balance_overflow_is_rejected() {
    let mut state = WalletState::new();
    let mut m = WalletStateMemento::new();
    m.add_unspent_transaction(ptr(1, 0), out(9, MAX_COIN));
    m.add_unspent_transaction(ptr(1, 1), out(9, 1));
    state.apply(&m).unwrap();
    assert!(matches!(state.balance(), Err(WalletError::InvalidInput)));
}

#[test]
fn history_hides_no_change_and_pages() {
    let mut state = WalletState::new();
    let mut m = WalletStateMemento::new();
    m.add_transaction_change(change(1, BalanceChange::Incoming(Coin { value: 10 }), 1));
    m.add_transaction_change(change(2, BalanceChange::NoChange, 2));
    m.add_transaction_change(change(3, BalanceChange::Outgoing(Coin { value: 4 }), 3));
    m.add_transaction_change(change(4, BalanceChange::Incoming(Coin { value: 7 }), 4));
    state.apply(&m).unwrap();
    let all = state.history(0, 10, false);
    assert_eq!(all.len(), 3);
    assert_eq!(all[0].transaction_id, [1u8; 32]);
    assert_eq!(all[1].transaction_id, [3u8; 32]);
    assert_eq!(all[2].transaction_id, [4u8; 32]);
    let newest_first = state.history(0, 2, true);
    assert_eq!(newest_first.len(), 2);
    assert_eq!(newest_first[0].transaction_id, [4u8; 32]);
    assert_eq!(newest_first[1].transaction_id, [3u8; 32]);
    let offset_page = state.history(2, 5, false);
    assert_eq!(offset_page.len(), 1);
    assert_eq!(offset_page[0].transaction_id, [4u8; 32]);
    let beyond = state.history(9, 5, false);
    assert_eq!(beyond.len(), 0);
}

#[test]
fn output_lookup_and_presence() {
    let mut state = WalletState::new();
    let mut m = WalletStateMemento::new();
    m.add_unspent_transaction(ptr(1, 0), out(9, 100));
    state.apply(&m).unwrap();
    let o = state.output(&ptr(1, 0)).unwrap();
    assert_eq!(o.value.value, 100);
    assert_eq!(o.address, [9u8; 32]);
    assert!(matches!(state.output(&ptr(1, 1)), Err(WalletError::InvalidInput)));
    assert!(state.has_unspent_transactions(&vec![ptr(1, 0)]));
    assert!(!state.has_unspent_transactions(&vec![ptr(1, 0), ptr(2, 0)]));
}

use vstd::prelude::*;
use crate::WalletError;
use crate::types::{Coin, MAX_COIN, TxoPointer, TxOut, Transaction, TransactionChange,
    BalanceChange, bytes32_eq, ptr_key_eq};
use crate::crypto::{sha256, sha256_of};
use crate::ledger::{WalletState, WalletStateMemento, WalletView, MementoOp, find_unspent_at,
    sum_values, copy_outputs, ChangeView, apply_ops_spec, apply_op_spec};

verus! {

// ---------------------------------------------------------------------------
// Transaction identity: the digest of a canonical encoding.
// ---------------------------------------------------------------------------

pub open spec fn encode_u64_le(v: u64) -> Seq<u8> {
    Seq::new(8, |i: int| ((v >> (8 * i)) & 0xff) as u8)
}

pub open spec fn encode_ptr(p: TxoPointer) -> Seq<u8> {
    p.txid@ + encode_u64_le(p.index)
}

pub open spec fn encode_out(o: TxOut) -> Seq<u8> {
    o.address@ + encode_u64_le(o.value.value)
}

pub open spec fn encode_inputs(s: Seq<TxoPointer>) -> Seq<u8>
    decreases s.len(),
{
    if s.len() == 0 {
        Seq::empty()
    } else {
        encode_inputs(s.drop_last()) + encode_ptr(s.last())
    }
}

pub open spec fn encode_outputs(s: Seq<TxOut>) -> Seq<u8>
    decreases s.len(),
{
    if s.len() == 0 {
        Seq::empty()
    } else {
        encode_outputs(s.drop_last()) + encode_out(s.last())
    }
}

/// The canonical byte encoding of a transaction: counts, then inputs, then
/// outputs, all integers little-endian.
pub open spec fn encode_tx_of(inputs: Seq<TxoPointer>, outputs: Seq<TxOut>) -> Seq<u8> {
    encode_u64_le(inputs.len() as u64) + encode_inputs(inputs) + encode_u64_le(
        outputs.len() as u64,
    ) + encode_outputs(outputs)
}

/// A transaction's identifier: the digest of its canonical encoding.
pub open spec fn tx_id_of(inputs: Seq<TxoPointer>, outputs: Seq<TxOut>) -> Seq<u8> {
    sha256_of(encode_tx_of(inputs, outputs))
}

fn push_u64_le(buf: &mut Vec<u8>, v: u64)
    ensures
        final(buf)@ == old(buf)@ + encode_u64_le(v),
{
    let ghost pre = buf@;
    let mut k: usize = 0;
    while k < 8
        invariant
            k <= 8,
            buf@ == pre + encode_u64_le(v).take(k as int),
        decreases 8 - k,
    {
        let byte = ((v >> ((8 * k) as u64)) & 0xff) as u8;
        buf.push(byte);
        proof {
            assert(encode_u64_le(v)[k as int] == byte);
            assert(buf@ =~= pre + encode_u64_le(v).take(k + 1));
        }
        k += 1;
    }
    proof {
        assert(encode_u64_le(v).take(8) =~= encode_u64_le(v));
    }
}

fn push_arr32(buf: &mut Vec<u8>, a: &[u8; 32])
    ensures
        final(buf)@ == old(buf)@ + a@,
{
    let ghost pre = buf@;
    let mut k: usize = 0;
    while k < 32
        invariant
            k <= 32,
            buf@ == pre + a@.take(k as int),
        decreases 32 - k,
    {
        buf.push(a[k]);
        proof {
            assert(buf@ =~= pre + a@.take(k + 1));
        }
        k += 1;
    }
    proof {
        assert(a@.take(32) =~= a@);
    }
}

/// Computes a transaction's identifier from its content.
pub fn transaction_id(tx: &Transaction) -> (r: [u8; 32])
    ensures
        r@ == tx_id_of(tx.inputs@, tx.outputs@),
{
    let mut buf: Vec<u8> = Vec::new();
    push_u64_le(&mut buf, tx.inputs.len() as u64);
    let ghost head = buf@;
    let mut i: usize = 0;
    while i < tx.inputs.len()
        invariant
            i <= tx.inputs@.len(),
            head == encode_u64_le(tx.inputs@.len() as u64),
            buf@ == head + encode_inputs(tx.inputs@.take(i as int)),
        decreases tx.inputs@.len() - i,
    {
        let ghost pre = buf@;
        push_arr32(&mut buf, &tx.inputs[i].txid);
        push_u64_le(&mut buf, tx.inputs[i].index);
        proof {
            let t1 = tx.inputs@.take(i + 1);
            assert(t1.drop_last() =~= tx.inputs@.take(i as int));
            assert(t1.last() == tx.inputs@[i as int]);
            assert(buf@ =~= head + encode_inputs(t1));
        }
        i += 1;
    }
    proof {
        assert(tx.inputs@.take(tx.inputs@.len() as int) =~= tx.inputs@);
    }
    let ghost mid = buf@;
    push_u64_le(&mut buf, tx.outputs.len() as u64);
    let ghost head2 = buf@;
    let mut j: usize = 0;
    while j < tx.outputs.len()
        invariant
            j <= tx.outputs@.len(),
            head2 == mid + encode_u64_le(tx.outputs@.len() as u64),
            mid == encode_u64_le(tx.inputs@.len() as u64) + encode_inputs(tx.inputs@),
            buf@ == head2 + encode_outputs(tx.outputs@.take(j as int)),
        decreases tx.outputs@.len() - j,
    {
        push_arr32(&mut buf, &tx.outputs[j].address);
        push_u64_le(&mut buf, tx.outputs[j].value.value);
        proof {
            let t1 = tx.outputs@.take(j + 1);
            assert(t1.drop_last() =~= tx.outputs@.take(j as int));
            assert(t1.last() == tx.outputs@[j as int]);
            assert(buf@ =~= head2 + encode_outputs(t1));
        }
        j += 1;
    }
    proof {
        assert(tx.outputs@.take(tx.outputs@.len() as int) =~= tx.outputs@);
        assert(buf@ =~= encode_tx_of(tx.inputs@, tx.outputs@));
    }
    sha256(&buf)
}

// ---------------------------------------------------------------------------
// The spent/unspent bitmap that accompanies a confirmed transaction.
// ---------------------------------------------------------------------------

/// Bit `i` of a big-endian-per-byte bitmap.
pub open spec fn bitmap_bit_of(bytes: Seq<u8>, i: int) -> bool {
    ((bytes[i / 8] as u32) >> ((7 - (i % 8)) as u32)) & 1 == 1
}

/// Relies on bit_vec's BitVec::from_bytes and BitVec::get: bytes are read
/// big-endian within each byte, and a position at or past the bit length
/// gives None.
#[verifier::external_body]
fn bitmap_bit(bytes: &Vec<u8>, i: usize) -> (r: Option<bool>)
    ensures
        r == (if (i as int) < 8 * bytes@.len() {
            Some(bitmap_bit_of(bytes@, i as int))
        } else {
            None::<bool>
        }),
{
    bit_vec::BitVec::from_bytes(bytes.as_slice()).get(i)
}

/// Decodes the authoritative spent/unspent bitmap into one flag per output;
/// `InvalidInput` when the bitmap is too short for the output count.
pub fn read_spent_flags(bitmap: &Vec<u8>, count: usize) -> (r: Result<Vec<bool>, WalletError>)
    ensures
        r is Ok <==> count <= 8 * bitmap@.len(),
        r matches Ok(v) ==> v@.len() == count && (forall|j: int|
            0 <= j < count ==> v@[j] == bitmap_bit_of(bitmap@, j)),
        r matches Err(e) ==> e == WalletError::InvalidInput,
{
    let mut out: Vec<bool> = Vec::new();
    let mut i: usize = 0;
    while i < count
        invariant
            i <= count,
            out@.len() == i,
            i <= 8 * bitmap@.len(),
            forall|j: int| 0 <= j < i ==> out@[j] == bitmap_bit_of(bitmap@, j),
        decreases count - i,
    {
        match bitmap_bit(bitmap, i) {
            Some(b) => {
                out.push(b);
            },
            None => {
                return Err(WalletError::InvalidInput);
            },
        }
        i += 1;
    }
    Ok(out)
}

// ---------------------------------------------------------------------------
// Import: reconciling one confirmed transaction into the ledger.
// ---------------------------------------------------------------------------

/// The wallet's identity for reconciliation: the spending addresses it owns.
pub struct Wallet {
    pub transfer_addresses: Vec<[u8; 32]>,
}

pub open spec fn addr_views(s: Seq<[u8; 32]>) -> Seq<Seq<u8>> {
    s.map_values(|a: [u8; 32]| a@)
}

impl Wallet {
    pub open spec fn owns(self, addr: Seq<u8>) -> bool {
        addr_views(self.transfer_addresses@).contains(addr)
    }
}

fn owns_address(wallet: &Wallet, addr: &[u8; 32]) -> (r: bool)
    ensures
        r == wallet.owns(addr@),
{
    let mut i: usize = 0;
    while i < wallet.transfer_addresses.len()
        invariant
            i <= wallet.transfer_addresses@.len(),
            forall|j: int| 0 <= j < i ==> (#[trigger] addr_views(wallet.transfer_addresses@)[j])
                != addr@,
        decreases wallet.transfer_addresses@.len() - i,
    {
        if bytes32_eq(&wallet.transfer_addresses[i], addr) {
            proof {
                assert(addr_views(wallet.transfer_addresses@)[i as int] == addr@);
            }
            return true;
        }
        i += 1;
    }
    proof {
        assert forall|j: int| 0 <= j < addr_views(wallet.transfer_addresses@).len()
            implies addr_views(wallet.transfer_addresses@)[j] != addr@ by {}
    }
    false
}

/// The value this transaction spends out of the wallet: the sum of the
/// wallet's unspent outputs that its inputs point at.
pub open spec fn spent_sum(unspent: Seq<(TxoPointer, TxOut)>, inputs: Seq<TxoPointer>) -> int
    decreases inputs.len(),
{
    if inputs.len() == 0 {
        0
    } else {
        spent_sum(unspent, inputs.drop_last()) + (match find_unspent_at(unspent, inputs.last()) {
            Some(o) => o.value.value as int,
            None => 0,
        })
    }
}

/// The value this transaction pays to the wallet's own addresses.
pub open spec fn received_sum(wallet: Wallet, outputs: Seq<TxOut>) -> int
    decreases outputs.len(),
{
    if outputs.len() == 0 {
        0
    } else {
        received_sum(wallet, outputs.drop_last()) + (if wallet.owns(outputs.last().address@) {
            outputs.last().value.value as int
        } else {
            0
        })
    }
}

/// The transaction's net balance effect on the wallet.
pub open spec fn balance_effect(received: int, spent: int) -> BalanceChange {
    if received > spent {
        BalanceChange::Incoming(Coin { value: (received - spent) as u64 })
    } else if spent > received {
        BalanceChange::Outgoing(Coin { value: (spent - received) as u64 })
    } else {
        BalanceChange::NoChange
    }
}

/// The unspent entries an import stages: each output of the transaction that
/// the wallet owns and that the authoritative bitmap still shows unspent, in
/// output order, keyed by the transaction id and output index.
pub open spec fn import_adds(
    wallet: Wallet,
    txid: [u8; 32],
    outputs: Seq<TxOut>,
    flags: Seq<bool>,
    n: int,
) -> Seq<(TxoPointer, TxOut)>
    decreases n,
{
    if n <= 0 {
        Seq::empty()
    } else {
        import_adds(wallet, txid, outputs, flags, n - 1) + (if wallet.owns(
            outputs[n - 1].address@,
        ) && !flags[n - 1] {
            seq![(TxoPointer { txid, index: (n - 1) as u64 }, outputs[n - 1])]
        } else {
            Seq::empty()
        })
    }
}

/// The total value of the outputs an import stages, independent of the
/// transaction identifier they are keyed by.
pub open spec fn added_sum(wallet: Wallet, outputs: Seq<TxOut>, flags: Seq<bool>, n: int) -> int
    decreases n,
{
    if n <= 0 {
        0
    } else {
        added_sum(wallet, outputs, flags, n - 1) + (if wallet.owns(outputs[n - 1].address@)
            && !flags[n - 1] {
            outputs[n - 1].value.value as int
        } else {
            0
        })
    }
}

proof fn lemma_added_sum_monotone(wallet: Wallet, outputs: Seq<TxOut>, flags: Seq<bool>, n: int, m: int)
    requires
        0 <= n <= m,
    ensures
        added_sum(wallet, outputs, flags, n) <= added_sum(wallet, outputs, flags, m),
    decreases m - n,
{
    if n < m {
        lemma_added_sum_monotone(wallet, outputs, flags, n, m - 1);
    }
}

pub open spec fn add_ops_of(adds: Seq<(TxoPointer, TxOut)>) -> Seq<MementoOp> {
    adds.map_values(|e: (TxoPointer, TxOut)| MementoOp::AddUnspent(e.0, e.1))
}

/// Reconciles one confirmed transaction into a memento.
///
/// Rejected with `InvalidInput` when the flag count does not match the output
/// count, when the claimed block does not list the transaction, or when a
/// value sum overflows the coin range. Otherwise it stages one unspent entry
/// for every owned, still-unspent output, stages the transaction's change
/// record, and returns the imported value; the memento is untouched on
/// failure.
pub fn import_transaction(
    wallet: &Wallet,
    state: &WalletState,
    memento: &mut WalletStateMemento,
    tx: &Transaction,
    block_height: u64,
    block_time: u64,
    block_tx_ids: &Vec<[u8; 32]>,
    spent_flags: &Vec<bool>,
) -> (r: Result<Coin, WalletError>)
    ensures
        r is Ok <==> ({
            let tid = tx_id_of(tx.inputs@, tx.outputs@);
            &&& spent_flags@.len() == tx.outputs@.len()
            &&& addr_views(block_tx_ids@).contains(tid)
            &&& spent_sum(state.wview().unspent, tx.inputs@) <= MAX_COIN
            &&& received_sum(*wallet, tx.outputs@) <= MAX_COIN
            &&& added_sum(*wallet, tx.outputs@, spent_flags@, tx.outputs@.len() as int)
                <= MAX_COIN
        }),
        r is Err ==> *final(memento) == *old(memento),
        r matches Err(e) ==> e == WalletError::InvalidInput,
        r matches Ok(v) ==> ({
            let tid = tx_id_of(tx.inputs@, tx.outputs@);
            exists|t: [u8; 32]|
                {
                    let adds = #[trigger] import_adds(
                        *wallet,
                        t,
                        tx.outputs@,
                        spent_flags@,
                        tx.outputs@.len() as int,
                    );
                    &&& t@ == tid
                    &&& v.value == added_sum(
                        *wallet,
                        tx.outputs@,
                        spent_flags@,
                        tx.outputs@.len() as int,
                    )
                    &&& v.value == sum_values(adds)
                    &&& v.wf()
                    &&& final(memento).ops@.len() == old(memento).ops@.len() + adds.len() + 1
                    &&& final(memento).ops@.subrange(0, old(memento).ops@.len() as int) == old(
                        memento,
                    ).ops@
                    &&& final(memento).ops@.subrange(
                        old(memento).ops@.len() as int,
                        old(memento).ops@.len() + adds.len() as int,
                    ) == add_ops_of(adds)
                    &&& (final(memento).ops@.last() matches MementoOp::AddChange(c) && c.cview()
                        == ChangeView {
                        transaction_id: tid,
                        outputs: tx.outputs@,
                        balance_change: balance_effect(
                            received_sum(*wallet, tx.outputs@),
                            spent_sum(state.wview().unspent, tx.inputs@),
                        ),
                        block_height: block_height,
                        block_time: block_time,
                    })
                }
        }),
{
    let ghost pre_ops = memento.ops@;
    if spent_flags.len() != tx.outputs.len() {
        return Err(WalletError::InvalidInput);
    }
    // the caller must show the transaction really sits in the claimed block
    let tid = transaction_id(tx);
    let mut found = false;
    let mut b: usize = 0;
    while b < block_tx_ids.len()
        invariant
            b <= block_tx_ids@.len(),
            tid@ == tx_id_of(tx.inputs@, tx.outputs@),
            found ==> addr_views(block_tx_ids@).contains(tid@),
            !found ==> forall|j: int| 0 <= j < b
                ==> (#[trigger] addr_views(block_tx_ids@)[j]) != tid@,
        decreases block_tx_ids@.len() - b,
    {
        if bytes32_eq(&block_tx_ids[b], &tid) {
            found = true;
            proof {
                assert(addr_views(block_tx_ids@)[b as int] == tid@);
            }
        }
        b += 1;
    }
    if !found {
        proof {
            assert forall|j: int| 0 <= j < addr_views(block_tx_ids@).len()
                implies addr_views(block_tx_ids@)[j] != tid@ by {}
        }
        return Err(WalletError::InvalidInput);
    }
    // classify the balance effect
    let ghost uns = state.wview().unspent;
    let mut spent: u128 = 0;
    let mut i: usize = 0;
    proof {
        assert(tx.inputs@.take(0) =~= Seq::<TxoPointer>::empty());
    }
    while i < tx.inputs.len()
        invariant
            i <= tx.inputs@.len(),
            uns == state.wview().unspent,
            spent == spent_sum(uns, tx.inputs@.take(i as int)),
            spent <= MAX_COIN,
        decreases tx.inputs@.len() - i,
    {
        proof {
            assert(tx.inputs@.take(i + 1).drop_last() =~= tx.inputs@.take(i as int));
            assert(tx.inputs@.take(i + 1).last() == tx.inputs@[i as int]);
        }
        match state.output(&tx.inputs[i]) {
            Ok(o) => {
                let next = spent + o.value.value as u128;
                if next > MAX_COIN as u128 {
                    proof {
                        lemma_spent_take_monotone(uns, tx.inputs@, i + 1);
                    }
                    return Err(WalletError::InvalidInput);
                }
                spent = next;
            },
            Err(_) => {},
        }
        i += 1;
    }
    proof {
        assert(tx.inputs@.take(tx.inputs@.len() as int) =~= tx.inputs@);
    }
    let mut received: u128 = 0;
    let mut j: usize = 0;
    proof {
        assert(tx.outputs@.take(0) =~= Seq::<TxOut>::empty());
    }
    while j < tx.outputs.len()
        invariant
            j <= tx.outputs@.len(),
            received == received_sum(*wallet, tx.outputs@.take(j as int)),
            received <= MAX_COIN,
        decreases tx.outputs@.len() - j,
    {
        proof {
            assert(tx.outputs@.take(j + 1).drop_last() =~= tx.outputs@.take(j as int));
            assert(tx.outputs@.take(j + 1).last() == tx.outputs@[j as int]);
        }
        if owns_address(wallet, &tx.outputs[j].address) {
            let next = received + tx.outputs[j].value.value as u128;
            if next > MAX_COIN as u128 {
                proof {
                    lemma_received_take_monotone(*wallet, tx.outputs@, j + 1);
                }
                return Err(WalletError::InvalidInput);
            }
            received = next;
        }
        j += 1;
    }
    proof {
        assert(tx.outputs@.take(tx.outputs@.len() as int) =~= tx.outputs@);
    }
    // collect the owned, still-unspent outputs
    let mut adds: Vec<(TxoPointer, TxOut)> = Vec::new();
    let mut total: u128 = 0;
    let mut k: usize = 0;
    while k < tx.outputs.len()
        invariant
            k <= tx.outputs@.len(),
            spent_flags@.len() == tx.outputs@.len(),
            tid@ == tx_id_of(tx.inputs@, tx.outputs@),
            adds@ == import_adds(*wallet, tid, tx.outputs@, spent_flags@, k as int),
            total == sum_values(adds@),
            total == added_sum(*wallet, tx.outputs@, spent_flags@, k as int),
            total <= MAX_COIN,
        decreases tx.outputs@.len() - k,
    {
        let ghost pre = adds@;
        if owns_address(wallet, &tx.outputs[k].address) && !spent_flags[k] {
            let entry = (TxoPointer { txid: tid, index: k as u64 }, tx.outputs[k]);
            let next = total + entry.1.value.value as u128;
            if next > MAX_COIN as u128 {
                proof {
                    lemma_added_sum_monotone(
                        *wallet,
                        tx.outputs@,
                        spent_flags@,
                        (k + 1) as int,
                        tx.outputs@.len() as int,
                    );
                }
                return Err(WalletError::InvalidInput);
            }
            adds.push(entry);
            total = next;
            proof {
                let cur = import_adds(*wallet, tid, tx.outputs@, spent_flags@, (k + 1) as int);
                assert(cur.drop_last() =~= pre);
                assert(cur.last() == entry);
                assert(adds@ =~= cur);
                assert(sum_values(cur) == sum_values(pre) + entry.1.value.value);
            }
        } else {
            proof {
                assert(import_adds(*wallet, tid, tx.outputs@, spent_flags@, (k + 1) as int)
                    =~= pre);
            }
        }
        k += 1;
    }
    // stage everything
    let ghost final_adds = adds@;
    let mut a: usize = 0;
    while a < adds.len()
        invariant
            a <= adds@.len(),
            adds@ == final_adds,
            memento.ops@.len() == pre_ops.len() + a,
            memento.ops@.subrange(0, pre_ops.len() as int) == pre_ops,
            memento.ops@.subrange(pre_ops.len() as int, pre_ops.len() + a) == add_ops_of(
                final_adds.take(a as int),
            ),
        decreases adds@.len() - a,
    {
        let ghost pre_m = memento.ops@;
        memento.add_unspent_transaction(adds[a].0, adds[a].1);
        proof {
            assert(memento.ops@ == pre_m.push(MementoOp::AddUnspent(final_adds[a as int].0,
                final_adds[a as int].1)));
            assert(memento.ops@.subrange(0, pre_ops.len() as int) =~= pre_ops);
            assert(memento.ops@.subrange(pre_ops.len() as int, pre_ops.len() + a + 1)
                =~= add_ops_of(final_adds.take(a + 1))) by {
                let lhs = memento.ops@.subrange(pre_ops.len() as int, pre_ops.len() + a + 1);
                let rhs = add_ops_of(final_adds.take(a + 1));
                assert forall|x: int| 0 <= x < lhs.len() implies lhs[x] == rhs[x] by {
                    if x < a {
                        assert(lhs[x] == pre_m.subrange(
                            pre_ops.len() as int,
                            pre_ops.len() + a,
                        )[x]);
                        assert(add_ops_of(final_adds.take(a as int))[x] == rhs[x]);
                    } else {
                        assert(lhs[x] == memento.ops@[pre_ops.len() + a]);
                    }
                }
            }
        }
        a += 1;
    }
    proof {
        assert(final_adds.take(final_adds.len() as int) =~= final_adds);
    }
    let effect = if received > spent {
        BalanceChange::Incoming(Coin { value: (received - spent) as u64 })
    } else if spent > received {
        BalanceChange::Outgoing(Coin { value: (spent - received) as u64 })
    } else {
        BalanceChange::NoChange
    };
    let change = TransactionChange {
        transaction_id: tid,
        outputs: copy_outputs(&tx.outputs),
        balance_change: effect,
        block_height,
        block_time,
    };
    let ghost pre_m = memento.ops@;
    memento.add_transaction_change(change);
    proof {
        assert(memento.ops@.subrange(0, pre_ops.len() as int)
            =~= pre_m.subrange(0, pre_ops.len() as int));
        assert(memento.ops@.subrange(pre_ops.len() as int, pre_ops.len() + final_adds.len() as int)
            =~= pre_m.subrange(pre_ops.len() as int, pre_ops.len() + final_adds.len() as int));
        assert(effect == balance_effect(
            received_sum(*wallet, tx.outputs@),
            spent_sum(state.wview().unspent, tx.inputs@),
        ));
    }
    Ok(Coin { value: total as u64 })
}

proof fn lemma_spent_take_monotone(unspent: Seq<(TxoPointer, TxOut)>, inputs: Seq<TxoPointer>, i: int)
    requires
        0 <= i <= inputs.len(),
    ensures
        spent_sum(unspent, inputs.take(i)) <= spent_sum(unspent, inputs),
    decreases inputs.len(),
{
    if i < inputs.len() {
        assert(inputs.take(i) =~= inputs.drop_last().take(i));
        lemma_spent_take_monotone(unspent, inputs.drop_last(), i);
    } else {
        assert(inputs.take(i) =~= inputs);
    }
}

proof fn lemma_received_take_monotone(wallet: Wallet, outputs: Seq<TxOut>, j: int)
    requires
        0 <= j <= outputs.len(),
    ensures
        received_sum(wallet, outputs.take(j)) <= received_sum(wallet, outputs),
    decreases outputs.len(),
{
    if j < outputs.len() {
        assert(outputs.take(j) =~= outputs.drop_last().take(j));
        lemma_received_take_monotone(wallet, outputs.drop_last(), j);
    } else {
        assert(outputs.take(j) =~= outputs);
    }
}


proof fn lemma_find_unspent_push(s: Seq<(TxoPointer, TxOut)>, e: (TxoPointer, TxOut), p: TxoPointer)
    ensures
        find_unspent_at(s.push(e), p) == (if find_unspent_at(s, p) is Some {
            find_unspent_at(s, p)
        } else if ptr_key_eq(e.0, p) {
            Some(e.1)
        } else {
            None::<TxOut>
        }),
    decreases s.len(),
{
    if s.len() == 0 {
        assert(s.push(e)[0] == e);
        assert(find_unspent_at(s, p) is None);
        if ptr_key_eq(e.0, p) {
            assert(find_unspent_at(s.push(e), p) == Some(e.1));
        } else {
            assert(s.push(e).drop_first() =~= Seq::<(TxoPointer, TxOut)>::empty());
            assert(find_unspent_at(s.push(e).drop_first(), p) is None);
            assert(find_unspent_at(s.push(e), p) is None);
        }
    } else {
        assert(s.push(e)[0] == s[0]);
        assert(s.push(e).drop_first() =~= s.drop_first().push(e));
        lemma_find_unspent_push(s.drop_first(), e, p);
        if ptr_key_eq(s[0].0, p) {
            assert(find_unspent_at(s.push(e), p) == Some(s[0].1));
            assert(find_unspent_at(s, p) == Some(s[0].1));
        } else {
            assert(find_unspent_at(s.push(e), p) == find_unspent_at(s.drop_first().push(e), p));
            assert(find_unspent_at(s, p) == find_unspent_at(s.drop_first(), p));
        }
    }
}

proof fn lemma_sum_append(a: Seq<(TxoPointer, TxOut)>, b: Seq<(TxoPointer, TxOut)>)
    ensures
        sum_values(a + b) == sum_values(a) + sum_values(b),
    decreases b.len(),
{
    if b.len() == 0 {
        assert(a + b =~= a);
    } else {
        assert((a + b).drop_last() =~= a + b.drop_last());
        assert((a + b).last() == b.last());
        lemma_sum_append(a, b.drop_last());
    }
}

/// Round trip of an import: applying the memento an import staged — the
/// unspent additions followed by the change record — succeeds whenever the
/// staged pointers are fresh and distinct, and afterwards the unspent set is
/// exactly the old set plus those additions, their values summing to the
/// imported amount; the history gains the one change record and the pending
/// set is untouched.
pub proof fn lemma_import_round_trip(
    v: WalletView,
    adds: Seq<(TxoPointer, TxOut)>,
    c: TransactionChange,
)
    requires
        forall|i: int| 0 <= i < adds.len()
            ==> find_unspent_at(v.unspent, (#[trigger] adds[i]).0) is None,
        forall|i: int, j: int| 0 <= i < j < adds.len()
            ==> !ptr_key_eq((#[trigger] adds[i]).0, (#[trigger] adds[j]).0),
    ensures
        apply_ops_spec(v, add_ops_of(adds).push(MementoOp::AddChange(c))) matches Some(v2)
            && v2.unspent == v.unspent + adds
            && v2.history == v.history.push(c.cview())
            && v2.pending == v.pending
            && sum_values(v2.unspent) == sum_values(v.unspent) + sum_values(adds),
    decreases adds.len(),
{
    let ops = add_ops_of(adds).push(MementoOp::AddChange(c));
    if adds.len() == 0 {
        assert(add_ops_of(adds).len() == 0);
        assert(ops.len() == 1);
        assert(ops[0] == MementoOp::AddChange(c));
        let v2 = WalletView { history: v.history.push(c.cview()), ..v };
        assert(apply_op_spec(v, ops[0]) == Some(v2));
        assert(ops.drop_first() =~= Seq::<MementoOp>::empty());
        assert(apply_ops_spec(v2, ops.drop_first()) == Some(v2));
        assert(v.unspent + adds =~= v.unspent);
        lemma_sum_append(v.unspent, adds);
    } else {
        let e = adds[0];
        assert(add_ops_of(adds)[0] == MementoOp::AddUnspent(e.0, e.1));
        assert(ops[0] == add_ops_of(adds)[0]);
        assert(find_unspent_at(v.unspent, e.0) is None);
        let v1 = WalletView { unspent: v.unspent.push((e.0, e.1)), ..v };
        assert(apply_op_spec(v, ops[0]) == Some(v1));
        let rest = adds.drop_first();
        assert forall|i: int| 0 <= i < rest.len()
            implies find_unspent_at(v1.unspent, (#[trigger] rest[i]).0) is None by {
            assert(rest[i] == adds[i + 1]);
            lemma_find_unspent_push(v.unspent, (e.0, e.1), rest[i].0);
            assert(!ptr_key_eq(adds[0].0, adds[i + 1].0));
        }
        assert forall|i: int, j: int| 0 <= i < j < rest.len()
            implies !ptr_key_eq((#[trigger] rest[i]).0, (#[trigger] rest[j]).0) by {
            assert(rest[i] == adds[i + 1]);
            assert(rest[j] == adds[j + 1]);
        }
        lemma_import_round_trip(v1, rest, c);
        assert(ops.drop_first() =~= add_ops_of(rest).push(MementoOp::AddChange(c))) by {
            let lhs = ops.drop_first();
            let rhs = add_ops_of(rest).push(MementoOp::AddChange(c));
            assert forall|x: int| 0 <= x < lhs.len() implies lhs[x] == rhs[x] by {
                if x < rest.len() {
                    assert(lhs[x] == add_ops_of(adds)[x + 1]);
                    assert(add_ops_of(adds)[x + 1] == MementoOp::AddUnspent(
                        adds[x + 1].0,
                        adds[x + 1].1,
                    ));
                    assert(rhs[x] == MementoOp::AddUnspent(rest[x].0, rest[x].1));
                    assert(rest[x] == adds[x + 1]);
                }
            }
        }
        let v2 = apply_ops_spec(v1, add_ops_of(rest).push(MementoOp::AddChange(c)))->0;
        assert(v2.unspent =~= v.unspent + adds) by {
            assert(v2.unspent == v1.unspent + rest);
            assert((e.0, e.1) == adds[0]);
            assert(v.unspent.push(adds[0]) + rest =~= v.unspent + adds);
        }
        lemma_sum_append(v.unspent, adds);
    }
}

} // verus!

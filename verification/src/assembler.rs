use vstd::prelude::*;
use vstd::relations::sorted_by;
use crate::WalletError;
use crate::types::{Coin, MAX_COIN, TxoPointer, TxOut, Transaction};
use crate::crypto::SchnorrSignature;
use crate::merkle::{AddressBook, InclusionProof, prove, verify_spec, qualifying_subset};
use crate::session::SigningSession;
use crate::ledger::{WalletState, sum_values, lemma_sum_take_monotone, find_unspent_at};

verus! {

// ---------------------------------------------------------------------------
// Input selection.
// ---------------------------------------------------------------------------

/// The deterministic order in which unspent outputs are offered to the
/// greedy selector.
#[derive(Clone, Copy, Debug, PartialEq, Eq, Structural)]
pub enum InputSelectionStrategy {
    /// Spend the smallest coins first, shedding dust.
    SmallestCoinsFirst,
    /// Spend the largest coins first, minimizing the input count.
    LargestCoinsFirst,
}

impl Default for InputSelectionStrategy {
    fn default() -> (r: Self)
        ensures
            r == InputSelectionStrategy::SmallestCoinsFirst,
    {
        InputSelectionStrategy::SmallestCoinsFirst
    }
}

pub open spec fn value_order_fn(ascending: bool) -> spec_fn((TxoPointer, TxOut), (TxoPointer, TxOut)) -> bool {
    if ascending {
        |a: (TxoPointer, TxOut), b: (TxoPointer, TxOut)| a.1.value.value <= b.1.value.value
    } else {
        |a: (TxoPointer, TxOut), b: (TxoPointer, TxOut)| a.1.value.value >= b.1.value.value
    }
}

/// Stable insertion into an ordered run: the new entry goes after every
/// entry it does not precede strictly, so equal values keep their earlier
/// relative order.
pub open spec fn insert_by_value(
    s: Seq<(TxoPointer, TxOut)>,
    e: (TxoPointer, TxOut),
    ascending: bool,
) -> Seq<(TxoPointer, TxOut)>
    decreases s.len(),
{
    if s.len() > 0 && value_order_fn(ascending)(s[0], e) {
        seq![s[0]] + insert_by_value(s.drop_first(), e, ascending)
    } else {
        seq![e] + s
    }
}

/// The stable sort a selection policy applies: entries in value order, ties
/// kept in snapshot order, so a policy is a deterministic function of the
/// snapshot.
pub open spec fn sort_by_value(s: Seq<(TxoPointer, TxOut)>, ascending: bool) -> Seq<(TxoPointer, TxOut)>
    decreases s.len(),
{
    if s.len() == 0 {
        s
    } else {
        insert_by_value(sort_by_value(s.drop_last(), ascending), s.last(), ascending)
    }
}

proof fn lemma_insert_by_value_at(s: Seq<(TxoPointer, TxOut)>, e: (TxoPointer, TxOut), j: int, ascending: bool)
    requires
        0 <= j <= s.len(),
        forall|l: int| 0 <= l < j ==> #[trigger] value_order_fn(ascending)(s[l], e),
        j < s.len() ==> !value_order_fn(ascending)(s[j], e),
    ensures
        insert_by_value(s, e, ascending) == s.insert(j, e),
    decreases s.len(),
{
    if j == 0 {
        if s.len() > 0 {
            assert(!value_order_fn(ascending)(s[0], e));
        }
        assert(insert_by_value(s, e, ascending) == seq![e] + s);
        assert(seq![e] + s =~= s.insert(0, e));
    } else {
        assert(value_order_fn(ascending)(s[0], e));
        let d = s.drop_first();
        assert forall|l: int| 0 <= l < j - 1 implies #[trigger] value_order_fn(ascending)(d[l], e) by {
            assert(d[l] == s[l + 1]);
        }
        if j - 1 < d.len() {
            assert(d[j - 1] == s[j]);
        }
        lemma_insert_by_value_at(d, e, j - 1, ascending);
        assert(seq![s[0]] + d.insert(j - 1, e) =~= s.insert(j, e));
    }
}

/// A snapshot of the wallet's unspent outputs, ordered by a selection policy
/// and consumed once per transaction build.
pub struct UnspentTransactions {
    pub entries: Vec<(TxoPointer, TxOut)>,
}

fn entry_ord(a: &(TxoPointer, TxOut), b: &(TxoPointer, TxOut), ascending: bool) -> (r: bool)
    ensures
        r == value_order_fn(ascending)(*a, *b),
{
    if ascending {
        a.1.value.value <= b.1.value.value
    } else {
        a.1.value.value >= b.1.value.value
    }
}

impl UnspentTransactions {
    pub fn new(entries: Vec<(TxoPointer, TxOut)>) -> (r: UnspentTransactions)
        ensures
            r.entries@ == entries@,
    {
        UnspentTransactions { entries }
    }

    /// A snapshot of one wallet's unspent set.
    pub fn from_state(state: &WalletState) -> (r: UnspentTransactions)
        ensures
            r.entries@ == state.wview().unspent,
    {
        UnspentTransactions { entries: state.snapshot_unspent() }
    }

    /// Orders the snapshot by the chosen policy: exactly the stable sort of
    /// the entries, so two snapshots with the same entries order the same
    /// way; the entries are a permutation of what they were.
    pub fn apply_strategy(&mut self, strategy: InputSelectionStrategy)
        ensures
            final(self).entries@ == sort_by_value(
                old(self).entries@,
                strategy == InputSelectionStrategy::SmallestCoinsFirst,
            ),
            final(self).entries@.to_multiset() == old(self).entries@.to_multiset(),
            final(self).entries@.len() == old(self).entries@.len(),
            sorted_by(
                final(self).entries@,
                value_order_fn(strategy == InputSelectionStrategy::SmallestCoinsFirst),
            ),
    {
        let ascending = matches!(strategy, InputSelectionStrategy::SmallestCoinsFirst);
        let ghost input = self.entries@;
        let mut out: Vec<(TxoPointer, TxOut)> = Vec::new();
        let mut i: usize = 0;
        proof {
            broadcast use vstd::seq_lib::group_to_multiset_ensures;

            assert(out@.to_multiset() =~= input.take(0).to_multiset()) by {
                assert(input.take(0) =~= Seq::<(TxoPointer, TxOut)>::empty());
            }
        }
        while i < self.entries.len()
            invariant
                i <= input.len(),
                input == self.entries@,
                out@.len() == i,
                ascending == (strategy == InputSelectionStrategy::SmallestCoinsFirst),
                sorted_by(out@, value_order_fn(ascending)),
                out@ == sort_by_value(input.take(i as int), ascending),
                out@.to_multiset() == input.take(i as int).to_multiset(),
            decreases input.len() - i,
        {
            let e = self.entries[i];
            let mut j: usize = 0;
            while j < out.len() && entry_ord(&out[j], &e, ascending)
                invariant
                    j <= out@.len(),
                    forall|l: int| 0 <= l < j ==> #[trigger] value_order_fn(ascending)(out@[l], e),
                decreases out@.len() - j,
            {
                j += 1;
            }
            let ghost pre = out@;
            out.insert(j, e);
            proof {
                let leq = value_order_fn(ascending);
                assert(out@ == pre.insert(j as int, e));
                // the exec insertion point is the stable one
                lemma_insert_by_value_at(pre, e, j as int, ascending);
                assert(input.take(i + 1).drop_last() =~= input.take(i as int));
                assert(input.take(i + 1).last() == input[i as int]);
                assert(out@ == sort_by_value(input.take(i + 1), ascending));
                assert forall|x: int, y: int| 0 <= x < y < out@.len()
                    implies #[trigger] leq(out@[x], out@[y]) by {
                    if y < j {
                        assert(out@[x] == pre[x] && out@[y] == pre[y]);
                    } else if x > j {
                        assert(out@[x] == pre[x - 1] && out@[y] == pre[y - 1]);
                    } else if x < j && y == j {
                        assert(out@[x] == pre[x] && out@[y] == e);
                    } else if x < j && y > j {
                        assert(out@[x] == pre[x] && out@[y] == pre[y - 1]);
                    } else if x == j && y > j {
                        assert(out@[x] == e && out@[y] == pre[y - 1]);
                        assert(!leq(pre[j as int], e));
                        if y - 1 > j {
                            assert(leq(pre[j as int], pre[y - 1]));
                        }
                    }
                }
                broadcast use vstd::seq_lib::group_to_multiset_ensures;

                vstd::seq_lib::to_multiset_insert(pre, j as int, e);
                assert(input.take(i + 1) =~= input.take(i as int).push(e));
                vstd::seq_lib::to_multiset_build(input.take(i as int), e);
            }
            i += 1;
        }
        proof {
            assert(input.take(input.len() as int) =~= input);
        }
        self.entries = out;
    }
}

pub open spec fn pointers_of(s: Seq<(TxoPointer, TxOut)>) -> Seq<TxoPointer> {
    s.map_values(|e: (TxoPointer, TxOut)| e.0)
}

/// Greedily takes entries in snapshot order until they cover the required
/// total; `InsufficientFunds` exactly when the whole snapshot cannot.
pub fn select_inputs(utxos: &UnspentTransactions, required: u64) -> (r: Result<
    (Vec<TxoPointer>, u128),
    WalletError,
>)
    ensures
        r is Ok <==> sum_values(utxos.entries@) >= required,
        r matches Ok(sel) ==> (exists|k: int|
            {
                &&& 0 <= k <= utxos.entries@.len()
                &&& sel.0@ == pointers_of(#[trigger] utxos.entries@.take(k))
                &&& sel.1 == sum_values(utxos.entries@.take(k))
                &&& sel.1 >= required
                &&& (k > 0 ==> sum_values(utxos.entries@.take(k - 1)) < required)
            }),
        r matches Err(e) ==> e == WalletError::InsufficientFunds,
{
    let ghost entries = utxos.entries@;
    let mut picked: Vec<TxoPointer> = Vec::new();
    let mut total: u128 = 0;
    let mut k: usize = 0;
    proof {
        assert(entries.take(0) =~= Seq::<(TxoPointer, TxOut)>::empty());
        assert(pointers_of(entries.take(0)) =~= picked@);
    }
    while total < required as u128 && k < utxos.entries.len()
        invariant
            k <= entries.len(),
            entries == utxos.entries@,
            picked@ == pointers_of(entries.take(k as int)),
            total == sum_values(entries.take(k as int)),
            k > 0 && total >= required ==> sum_values(entries.take(k - 1)) < required,
            total < required as u128 || k == 0 ==> total <= MAX_COIN as u128 + 0xffff_ffff_ffff_ffffu64 as u128,
            total <= required as u128 + 0xffff_ffff_ffff_ffffu64 as u128,
        decreases entries.len() - k,
    {
        let e = utxos.entries[k];
        let ghost pre = picked@;
        picked.push(e.0);
        proof {
            let t1 = entries.take(k + 1);
            assert(t1.drop_last() =~= entries.take(k as int));
            assert(t1.last() == entries[k as int]);
            assert(pointers_of(t1).len() == k + 1);
            assert forall|x: int| 0 <= x < k + 1 implies picked@[x] == pointers_of(t1)[x] by {
                if x < k {
                    assert(picked@[x] == pre[x]);
                    assert(pointers_of(entries.take(k as int))[x] == pointers_of(t1)[x]);
                } else {
                    assert(picked@[x] == e.0);
                }
            }
            assert(picked@ =~= pointers_of(t1));
        }
        total = total + e.1.value.value as u128;
        k += 1;
    }
    if total >= required as u128 {
        proof {
            lemma_sum_take_monotone(entries, k as int);
        }
        Ok((picked, total))
    } else {
        proof {
            assert(k == entries.len());
            assert(entries.take(k as int) =~= entries);
        }
        Err(WalletError::InsufficientFunds)
    }
}

/// The total a set of requested outputs asks for.
pub open spec fn total_out(outputs: Seq<TxOut>) -> int
    decreases outputs.len(),
{
    if outputs.len() == 0 {
        0
    } else {
        total_out(outputs.drop_last()) + outputs.last().value.value
    }
}

/// Builds an unsigned transfer transaction: selects covering inputs from the
/// snapshot, keeps the requested outputs, and returns any surplus beyond the
/// requested total plus fee as a change output to the return address.
///
/// Fails with `InvalidInput` when the requested total plus fee overflows the
/// coin range, and with `InsufficientFunds` when the snapshot cannot cover
/// it; the returned coin is the change amount.
pub fn build_transaction(
    utxos: &UnspentTransactions,
    outputs: &Vec<TxOut>,
    return_address: &[u8; 32],
    fee: Coin,
) -> (r: Result<(Transaction, Vec<TxoPointer>, Coin), WalletError>)
    requires
        fee.wf(),
        forall|i: int| 0 <= i < utxos.entries@.len() ==> (#[trigger] utxos.entries@[i]).1.value.wf(),
    ensures
        r is Ok <==> (total_out(outputs@) + fee.value <= MAX_COIN && sum_values(utxos.entries@)
            >= total_out(outputs@) + fee.value),
        total_out(outputs@) + fee.value > MAX_COIN ==> (r matches Err(e) && e
            == WalletError::InvalidInput),
        (total_out(outputs@) + fee.value <= MAX_COIN && sum_values(utxos.entries@) < total_out(
            outputs@,
        ) + fee.value) ==> (r matches Err(e) && e == WalletError::InsufficientFunds),
        r matches Ok(built) ==> ({
            let change = built.2;
            &&& built.0.inputs@ == built.1@
            &&& change.wf()
            &&& (exists|k: int|
                {
                    &&& 0 <= k <= utxos.entries@.len()
                    &&& built.1@ == pointers_of(#[trigger] utxos.entries@.take(k))
                    &&& change.value == sum_values(utxos.entries@.take(k)) - total_out(outputs@)
                        - fee.value
                })
            &&& (change.value > 0 ==> built.0.outputs@ == outputs@.push(
                TxOut { address: *return_address, value: change },
            ))
            &&& (change.value == 0 ==> built.0.outputs@ == outputs@)
        }),
{
    // the requested total plus fee
    let mut req: u128 = fee.value as u128;
    let mut i: usize = 0;
    proof {
        assert(outputs@.take(0) =~= Seq::<TxOut>::empty());
    }
    while i < outputs.len()
        invariant
            i <= outputs@.len(),
            req == total_out(outputs@.take(i as int)) + fee.value,
            req <= MAX_COIN,
        decreases outputs@.len() - i,
    {
        proof {
            assert(outputs@.take(i + 1).drop_last() =~= outputs@.take(i as int));
            assert(outputs@.take(i + 1).last() == outputs@[i as int]);
        }
        let next = req + outputs[i].value.value as u128;
        if next > MAX_COIN as u128 {
            proof {
                lemma_total_out_take_monotone(outputs@, i + 1);
            }
            return Err(WalletError::InvalidInput);
        }
        req = next;
        i += 1;
    }
    proof {
        assert(outputs@.take(outputs@.len() as int) =~= outputs@);
    }
    let required = req as u64;
    let (picked, total) = match select_inputs(utxos, required) {
        Ok(sel) => sel,
        Err(_) => {
            return Err(WalletError::InsufficientFunds);
        },
    };
    proof {
        let k = choose|k: int|
            {
                &&& 0 <= k <= utxos.entries@.len()
                &&& picked@ == pointers_of(#[trigger] utxos.entries@.take(k))
                &&& total == sum_values(utxos.entries@.take(k))
                &&& total >= required
                &&& (k > 0 ==> sum_values(utxos.entries@.take(k - 1)) < required)
            };
        if k > 0 {
            let tk = utxos.entries@.take(k);
            assert(tk.drop_last() =~= utxos.entries@.take(k - 1));
            assert(tk.last() == utxos.entries@[k - 1]);
            assert(tk.last().1.value.wf());
            assert(sum_values(tk) == sum_values(utxos.entries@.take(k - 1))
                + tk.last().1.value.value);
            assert(total - required < MAX_COIN + 1);
        } else {
            assert(utxos.entries@.take(0) =~= Seq::<(TxoPointer, TxOut)>::empty());
            assert(total == 0);
        }
        assert(total - required as u128 <= MAX_COIN);
    }
    let change_val = (total - required as u128) as u64;
    let change = Coin { value: change_val };
    let mut tx_outputs = crate::ledger::copy_outputs(outputs);
    if change_val > 0 {
        tx_outputs.push(TxOut { address: *return_address, value: change });
    }
    let mut tx_inputs: Vec<TxoPointer> = Vec::new();
    let mut p: usize = 0;
    while p < picked.len()
        invariant
            p <= picked@.len(),
            tx_inputs@ == picked@.take(p as int),
        decreases picked@.len() - p,
    {
        tx_inputs.push(picked[p]);
        proof {
            assert(tx_inputs@ =~= picked@.take(p + 1));
        }
        p += 1;
    }
    proof {
        assert(picked@.take(picked@.len() as int) =~= picked@);
    }
    let tx = Transaction { inputs: tx_inputs, outputs: tx_outputs };
    Ok((tx, picked, change))
}

proof fn lemma_total_out_take_monotone(outputs: Seq<TxOut>, i: int)
    requires
        0 <= i <= outputs.len(),
    ensures
        total_out(outputs.take(i)) <= total_out(outputs),
    decreases outputs.len(),
{
    if i < outputs.len() {
        assert(outputs.take(i) =~= outputs.drop_last().take(i));
        lemma_total_out_take_monotone(outputs.drop_last(), i);
    } else {
        assert(outputs.take(i) =~= outputs);
    }
}

// ---------------------------------------------------------------------------
// The threshold witness.
// ---------------------------------------------------------------------------

/// The witness attached to a transfer transaction's single input: the
/// session's aggregate signature and the inclusion proof of the signing
/// subset.
pub enum TxWitness {
    TreeSig(SchnorrSignature, InclusionProof),
}

/// A transfer transaction together with its witness.
pub struct SignedTransaction {
    pub tx: Transaction,
    pub witness: TxWitness,
}

/// Attaches a threshold witness to an unsigned transaction.
///
/// Cooperative signing is restricted to transactions with exactly one input
/// (`InvalidInput` otherwise). The input must refer to one of the wallet's
/// unspent outputs (`InvalidInput`), that output's address must be a recorded
/// threshold address (`IllegalInput`), the session's signer set must be a
/// qualifying subset of its members (`InvalidInput`), and the session must be
/// complete (`InvalidInput`). The witness then carries the session's
/// aggregate signature and an inclusion proof that checks out against the
/// spending address.
pub fn assemble_multisig_transaction(
    state: &WalletState,
    book: &AddressBook,
    session: &SigningSession,
    tx: Transaction,
) -> (r: Result<SignedTransaction, WalletError>)
    requires
        book.wf(),
        session.wf(),
    ensures
        tx.inputs@.len() != 1 ==> (r matches Err(e) && e == WalletError::InvalidInput),
        (tx.inputs@.len() == 1 && find_unspent_at(state.wview().unspent, tx.inputs@[0]) is None)
            ==> (r matches Err(e) && e == WalletError::InvalidInput),
        (tx.inputs@.len() == 1 && (find_unspent_at(state.wview().unspent, tx.inputs@[0])
            matches Some(o) && !(exists|i: int|
            0 <= i < book.addresses@.len() && (#[trigger] book.addresses@[i]).root_hash@
                == o.address@))) ==> (r matches Err(e) && e == WalletError::IllegalInput),
        (tx.inputs@.len() == 1 && (find_unspent_at(state.wview().unspent, tx.inputs@[0])
            matches Some(o) && (exists|i: int|
            0 <= i < book.addresses@.len() && (#[trigger] book.addresses@[i]).root_hash@
                == o.address@ && qualifying_subset(book.addresses@[i], session.signers@))
            && session.state is Complete)) ==> r is Ok,
        r matches Ok(st) ==> ({
            &&& st.tx.inputs@ == tx.inputs@
            &&& st.tx.outputs@ == tx.outputs@
            &&& session.state is Complete
            &&& (st.witness matches TxWitness::TreeSig(sig, pf) && {
                &&& Some(sig.nonce_point) == session.agg_nonce
                &&& Some(sig.response) == session.agg_response
                &&& (find_unspent_at(state.wview().unspent, tx.inputs@[0]) matches Some(o)
                    && verify_spec(
                    o.address@,
                    pf.leaf_count as int,
                    pf.entries@,
                    crate::types::hashes_view(pf.siblings@),
                ))
            })
        }),
{
    if tx.inputs.len() != 1 {
        return Err(WalletError::InvalidInput);
    }
    let output_to_spend = match state.output(&tx.inputs[0]) {
        Ok(o) => o,
        Err(_) => {
            return Err(WalletError::InvalidInput);
        },
    };
    let addr = match book.find(&output_to_spend.address) {
        Some(a) => a,
        None => {
            return Err(WalletError::IllegalInput);
        },
    };
    let pf = match prove(addr, session.public_keys()) {
        Ok(p) => p,
        Err(_) => {
            return Err(WalletError::InvalidInput);
        },
    };
    let sig = match session.signature() {
        Ok(s) => s,
        Err(_) => {
            return Err(WalletError::InvalidInput);
        },
    };
    Ok(SignedTransaction { tx, witness: TxWitness::TreeSig(sig, pf) })
}

} // verus!
